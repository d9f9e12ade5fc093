//! The execution order, unfolded: the plan of a run becomes a sequence of
//! steps — suite hooks, group hooks, per-test hooks and test bodies —
//! nested strictly as
//!
//! suite `before` / group `before` / suite `before_each` /
//! group `before_each` / test body / group `after_each` /
//! suite `after_each` / group `after` / suite `after`.
//!
//! The sequence depends only on the plan and the declared hooks, never on
//! test outcomes: every teardown step is present whatever its test does.
//! A group's `after` is driven by a countdown seeded with the group's test
//! count, so it lands exactly after the group's last scheduled test.

use vstd::prelude::*;
use crate::registry::{GroupEntry, Suite};
use crate::sched::{ExecutionPlan, PlanEntry};
use crate::types::{SuiteHook, SuiteHookKind, TestGroup};

verus! {

/// One step of a run. Group and test fields index into the frozen suite's
/// entries and into the entry's test list; hook fields index into the
/// suite-level hook list.
#[derive(Debug, Clone, Copy, PartialEq, Eq, Structural)]
pub enum Step {
    /// Run the suite-level `before` hook with this index.
    SuiteBefore { hook: usize },
    /// Run the group's `before` hook.
    GroupBefore { group: usize },
    /// Run the suite-level `before_each` hook with this index.
    SuiteBeforeEach { hook: usize },
    /// Run the group's `before_each` hook.
    GroupBeforeEach { group: usize },
    /// Run the test body.
    RunTest { group: usize, test: usize },
    /// Run the group's `after_each` hook.
    GroupAfterEach { group: usize },
    /// Run the suite-level `after_each` hook with this index.
    SuiteAfterEach { hook: usize },
    /// Run the group's `after` hook.
    GroupAfter { group: usize },
    /// Run the suite-level `after` hook with this index.
    SuiteAfter { hook: usize },
}

/// The suite `before` steps, in registration order.
pub open spec fn suite_before_steps(hooks: Seq<SuiteHook>) -> Seq<Step>
    decreases hooks.len(),
{
    if hooks.len() == 0 {
        Seq::empty()
    } else {
        suite_before_steps(hooks.drop_last()) + (if hooks.last().kind is Before {
            seq![Step::SuiteBefore { hook: (hooks.len() - 1) as usize }]
        } else {
            Seq::empty()
        })
    }
}

/// The suite `before_each` steps of one test, in registration order.
pub open spec fn suite_before_each_steps(hooks: Seq<SuiteHook>) -> Seq<Step>
    decreases hooks.len(),
{
    if hooks.len() == 0 {
        Seq::empty()
    } else {
        suite_before_each_steps(hooks.drop_last()) + (if hooks.last().kind is BeforeEach {
            seq![Step::SuiteBeforeEach { hook: (hooks.len() - 1) as usize }]
        } else {
            Seq::empty()
        })
    }
}

/// The suite `after_each` steps of one test, in reverse registration order.
pub open spec fn suite_after_each_steps(hooks: Seq<SuiteHook>) -> Seq<Step>
    decreases hooks.len(),
{
    if hooks.len() == 0 {
        Seq::empty()
    } else {
        (if hooks.last().kind is AfterEach {
            seq![Step::SuiteAfterEach { hook: (hooks.len() - 1) as usize }]
        } else {
            Seq::empty()
        }) + suite_after_each_steps(hooks.drop_last())
    }
}

/// The suite `after` steps, in reverse registration order.
pub open spec fn suite_after_steps(hooks: Seq<SuiteHook>) -> Seq<Step>
    decreases hooks.len(),
{
    if hooks.len() == 0 {
        Seq::empty()
    } else {
        (if hooks.last().kind is After {
            seq![Step::SuiteAfter { hook: (hooks.len() - 1) as usize }]
        } else {
            Seq::empty()
        }) + suite_after_steps(hooks.drop_last())
    }
}

/// The steps of one test: the per-test hook layers around the body, inside
/// out — suite `before_each`, group `before_each`, the body, group
/// `after_each`, suite `after_each`. The teardown steps are present
/// unconditionally: they do not depend on what the body does.
pub open spec fn test_block(
    gi: usize,
    ti: usize,
    g: TestGroup,
    hooks: Seq<SuiteHook>,
) -> Seq<Step> {
    (if g.suite {
        suite_before_each_steps(hooks)
    } else {
        Seq::empty()
    }) + (if g.before_each is Some {
        seq![Step::GroupBeforeEach { group: gi }]
    } else {
        Seq::empty()
    }) + seq![Step::RunTest { group: gi, test: ti }] + (if g.after_each is Some {
        seq![Step::GroupAfterEach { group: gi }]
    } else {
        Seq::empty()
    }) + (if g.suite {
        suite_after_each_steps(hooks)
    } else {
        Seq::empty()
    })
}

/// The test blocks of one group, in plan order.
pub open spec fn tests_steps(
    gi: usize,
    tids: Seq<u64>,
    g: TestGroup,
    hooks: Seq<SuiteHook>,
) -> Seq<Step>
    decreases tids.len(),
{
    if tids.len() == 0 {
        Seq::empty()
    } else {
        tests_steps(gi, tids.drop_last(), g, hooks) + test_block(
            gi,
            tids.last() as usize,
            g,
            hooks,
        )
    }
}

/// The steps of one planned group: `before` once (lazily, only when the
/// group has tests to pay for it), the test blocks, then `after` once, when
/// the countdown over the group's tests reaches zero. A group with no
/// scheduled tests never triggers its hooks.
pub open spec fn group_block(pe: PlanEntry, entries: Seq<GroupEntry>, hooks: Seq<SuiteHook>) -> Seq<
    Step,
> {
    let g = entries[pe.group as int].group;
    if pe.tests@.len() == 0 {
        Seq::empty()
    } else {
        (if g.before is Some {
            seq![Step::GroupBefore { group: pe.group as usize }]
        } else {
            Seq::empty()
        }) + tests_steps(pe.group as usize, pe.tests@, g, hooks) + (if g.after is Some {
            seq![Step::GroupAfter { group: pe.group as usize }]
        } else {
            Seq::empty()
        })
    }
}

/// The group blocks of a plan, in plan order.
pub open spec fn blocks(
    pgs: Seq<PlanEntry>,
    entries: Seq<GroupEntry>,
    hooks: Seq<SuiteHook>,
) -> Seq<Step>
    decreases pgs.len(),
{
    if pgs.len() == 0 {
        Seq::empty()
    } else {
        blocks(pgs.drop_last(), entries, hooks) + group_block(pgs.last(), entries, hooks)
    }
}

/// Whether the planned group takes part in the suite-level hook layer: it
/// opted in and actually runs a test.
pub open spec fn opted(pe: PlanEntry, entries: Seq<GroupEntry>) -> bool {
    entries[pe.group as int].group.suite && pe.tests@.len() > 0
}

/// Whether any planned group takes part in the suite-level hook layer.
pub open spec fn any_opted(pgs: Seq<PlanEntry>, entries: Seq<GroupEntry>) -> bool {
    exists|k: int| 0 <= k < pgs.len() && opted(#[trigger] pgs[k], entries)
}

/// The full unfolded order of a run: the suite `before` layer (only when
/// some group opted in), the group blocks in plan order, then the suite
/// `after` layer, in reverse registration order.
pub open spec fn plan_steps(
    pgs: Seq<PlanEntry>,
    entries: Seq<GroupEntry>,
    hooks: Seq<SuiteHook>,
) -> Seq<Step> {
    (if any_opted(pgs, entries) {
        suite_before_steps(hooks)
    } else {
        Seq::empty()
    }) + blocks(pgs, entries, hooks) + (if any_opted(pgs, entries) {
        suite_after_steps(hooks)
    } else {
        Seq::empty()
    })
}

/// Every index a plan mentions is valid for the suite it was drawn from,
/// and the suite itself fits the machine (its entry and test counts are
/// vector lengths).
pub open spec fn plan_in_bounds(pgs: Seq<PlanEntry>, entries: Seq<GroupEntry>) -> bool {
    &&& entries.len() <= usize::MAX
    &&& forall|g: int| 0 <= g < entries.len() ==> (#[trigger] entries[g]).tests@.len() <= usize::MAX
    &&& forall|k: int|
        0 <= k < pgs.len() ==> {
            &&& (#[trigger] pgs[k]).group < entries.len()
            &&& forall|w: int|
                0 <= w < pgs[k].tests@.len() ==> #[trigger] pgs[k].tests@[w] < entries[pgs[
                    k
                ].group as int].tests@.len()
        }
}

/// Append the suite `before` steps for the hooks.
fn push_suite_before(hooks: &Vec<SuiteHook>, out: &mut Vec<Step>)
    ensures
        final(out)@ == old(out)@ + suite_before_steps(hooks@),
{
    let ghost base = out@;
    let mut i: usize = 0;
    while i < hooks.len()
        invariant
            i <= hooks@.len(),
            out@ == base + suite_before_steps(hooks@.take(i as int)),
        decreases hooks@.len() - i,
    {
        proof {
            assert(hooks@.take(i + 1int).drop_last() =~= hooks@.take(i as int));
            assert(hooks@.take(i + 1int).last() == hooks@[i as int]);
        }
        if matches!(hooks[i].kind, SuiteHookKind::Before) {
            out.push(Step::SuiteBefore { hook: i });
        }
        i = i + 1;
    }
    proof {
        assert(hooks@.take(hooks@.len() as int) =~= hooks@);
    }
}

/// Append the suite `before_each` steps for one test.
fn push_suite_before_each(hooks: &Vec<SuiteHook>, out: &mut Vec<Step>)
    ensures
        final(out)@ == old(out)@ + suite_before_each_steps(hooks@),
{
    let ghost base = out@;
    let mut i: usize = 0;
    while i < hooks.len()
        invariant
            i <= hooks@.len(),
            out@ == base + suite_before_each_steps(hooks@.take(i as int)),
        decreases hooks@.len() - i,
    {
        proof {
            assert(hooks@.take(i + 1int).drop_last() =~= hooks@.take(i as int));
            assert(hooks@.take(i + 1int).last() == hooks@[i as int]);
        }
        if matches!(hooks[i].kind, SuiteHookKind::BeforeEach) {
            out.push(Step::SuiteBeforeEach { hook: i });
        }
        i = i + 1;
    }
    proof {
        assert(hooks@.take(hooks@.len() as int) =~= hooks@);
    }
}

/// Append the suite `after_each` steps for one test, last registered first.
fn push_suite_after_each(hooks: &Vec<SuiteHook>, out: &mut Vec<Step>)
    ensures
        final(out)@ == old(out)@ + suite_after_each_steps(hooks@),
{
    let ghost base = out@;
    let mut i: usize = hooks.len();
    proof {
        assert(hooks@.take(i as int) =~= hooks@);
    }
    while i > 0
        invariant
            i <= hooks@.len(),
            out@ + suite_after_each_steps(hooks@.take(i as int)) == base
                + suite_after_each_steps(hooks@),
        decreases i,
    {
        proof {
            assert(hooks@.take(i as int).drop_last() =~= hooks@.take(i - 1int));
            assert(hooks@.take(i as int).last() == hooks@[i - 1int]);
        }
        i = i - 1;
        if matches!(hooks[i].kind, SuiteHookKind::AfterEach) {
            out.push(Step::SuiteAfterEach { hook: i });
        }
        proof {
            assert(out@ + suite_after_each_steps(hooks@.take(i as int)) == base
                + suite_after_each_steps(hooks@));
        }
    }
    proof {
        assert(hooks@.take(0) =~= Seq::<SuiteHook>::empty());
        assert(out@ + Seq::<Step>::empty() =~= out@);
    }
}

/// Append the suite `after` steps, last registered first.
fn push_suite_after(hooks: &Vec<SuiteHook>, out: &mut Vec<Step>)
    ensures
        final(out)@ == old(out)@ + suite_after_steps(hooks@),
{
    let ghost base = out@;
    let mut i: usize = hooks.len();
    proof {
        assert(hooks@.take(i as int) =~= hooks@);
    }
    while i > 0
        invariant
            i <= hooks@.len(),
            out@ + suite_after_steps(hooks@.take(i as int)) == base + suite_after_steps(hooks@),
        decreases i,
    {
        proof {
            assert(hooks@.take(i as int).drop_last() =~= hooks@.take(i - 1int));
            assert(hooks@.take(i as int).last() == hooks@[i - 1int]);
        }
        i = i - 1;
        if matches!(hooks[i].kind, SuiteHookKind::After) {
            out.push(Step::SuiteAfter { hook: i });
        }
        proof {
            assert(out@ + suite_after_steps(hooks@.take(i as int)) == base + suite_after_steps(
                hooks@,
            ));
        }
    }
    proof {
        assert(hooks@.take(0) =~= Seq::<SuiteHook>::empty());
        assert(out@ + Seq::<Step>::empty() =~= out@);
    }
}

/// Whether some planned group opted into the suite layer and has a test.
fn find_any_opted(p: &ExecutionPlan, suite: &Suite) -> (r: bool)
    requires
        plan_in_bounds(p.groups@, suite.entries@),
    ensures
        r == any_opted(p.groups@, suite.entries@),
{
    let ne = suite.entries.len();
    let mut k: usize = 0;
    while k < p.groups.len()
        invariant
            plan_in_bounds(p.groups@, suite.entries@),
            ne == suite.entries@.len(),
            k <= p.groups@.len(),
            forall|j: int| 0 <= j < k ==> !opted(#[trigger] p.groups@[j], suite.entries@),
        decreases p.groups@.len() - k,
    {
        let gi = p.groups[k].group as usize;
        proof {
            assert(p.groups@[k as int].group < suite.entries@.len());
        }
        if suite.entries[gi].group.suite && p.groups[k].tests.len() > 0 {
            return true;
        }
        k = k + 1;
    }
    false
}

/// Append the steps of one test: the per-test layers around the body.
fn push_test_block(suite: &Suite, gi: usize, ti: usize, out: &mut Vec<Step>)
    requires
        gi < suite.entries@.len(),
    ensures
        final(out)@ == old(out)@ + test_block(
            gi,
            ti,
            suite.entries@[gi as int].group,
            suite.suite_hooks@,
        ),
{
    let ghost base = out@;
    let ghost g = suite.entries@[gi as int].group;
    let ghost hooks = suite.suite_hooks@;
    if suite.entries[gi].group.suite {
        push_suite_before_each(&suite.suite_hooks, out);
    }
    if suite.entries[gi].group.before_each.is_some() {
        out.push(Step::GroupBeforeEach { group: gi });
    }
    out.push(Step::RunTest { group: gi, test: ti });
    if suite.entries[gi].group.after_each.is_some() {
        out.push(Step::GroupAfterEach { group: gi });
    }
    if suite.entries[gi].group.suite {
        push_suite_after_each(&suite.suite_hooks, out);
    }
    proof {
        assert(out@ =~= base + test_block(gi, ti, g, hooks));
    }
}

/// Unfold a plan into the full ordered step sequence of the run.
pub fn build_steps(p: &ExecutionPlan, suite: &Suite) -> (out: Vec<Step>)
    requires
        plan_in_bounds(p.groups@, suite.entries@),
    ensures
        out@ == plan_steps(p.groups@, suite.entries@, suite.suite_hooks@),
{
    let ghost entries = suite.entries@;
    let ghost hooks = suite.suite_hooks@;
    let ghost pgs = p.groups@;
    let with_suite = find_any_opted(p, suite);
    let mut out: Vec<Step> = Vec::new();
    if with_suite {
        push_suite_before(&suite.suite_hooks, &mut out);
    }
    let ghost head = out@;
    proof {
        assert(out@ == (if any_opted(pgs, entries) {
            suite_before_steps(hooks)
        } else {
            Seq::<Step>::empty()
        })) by {
            assert(Seq::<Step>::empty() + suite_before_steps(hooks) =~= suite_before_steps(hooks));
        }
        assert(head + blocks(pgs.take(0), entries, hooks) =~= head);
    }
    let mut k: usize = 0;
    while k < p.groups.len()
        invariant
            pgs == p.groups@,
            entries == suite.entries@,
            hooks == suite.suite_hooks@,
            plan_in_bounds(pgs, entries),
            k <= pgs.len(),
            out@ == head + blocks(pgs.take(k as int), entries, hooks),
        decreases pgs.len() - k,
    {
        proof {
            assert(pgs.take(k + 1int).drop_last() =~= pgs.take(k as int));
            assert(pgs.take(k + 1int).last() == pgs[k as int]);
        }
        let ne = suite.entries.len();
        proof {
            assert(pgs[k as int].group < entries.len());
        }
        let gi = p.groups[k].group as usize;
        let ntests = p.groups[k].tests.len();
        let tcount = suite.entries[gi].tests.len();
        let ghost g = entries[gi as int].group;
        let ghost block_base = out@;
        if ntests > 0 {
            let has_before = suite.entries[gi].group.before.is_some();
            if has_before {
                out.push(Step::GroupBefore { group: gi });
            }
            let ghost tests_base = out@;
            proof {
                assert(tests_base + tests_steps(gi, pgs[k as int].tests@.take(0), g, hooks)
                    =~= tests_base);
            }
            let mut w: usize = 0;
            while w < ntests
                invariant
                    pgs == p.groups@,
                    entries == suite.entries@,
                    hooks == suite.suite_hooks@,
                    plan_in_bounds(pgs, entries),
                    0 <= k < pgs.len(),
                    gi == pgs[k as int].group as usize,
                    gi < entries.len(),
                    g == entries[gi as int].group,
                    ntests == pgs[k as int].tests@.len(),
                    tcount == entries[gi as int].tests@.len(),
                    ne == entries.len(),
                    pgs[k as int].group < entries.len(),
                    w <= ntests,
                    out@ == tests_base + tests_steps(gi, pgs[k as int].tests@.take(w as int), g, hooks),
                decreases ntests - w,
            {
                proof {
                    assert(pgs[k as int].tests@.take(w + 1int).drop_last() =~= pgs[
                        k as int
                    ].tests@.take(w as int));
                    assert(pgs[k as int].tests@.take(w + 1int).last() == pgs[k as int].tests@[
                        w as int
                    ]);
                }
                proof {
                    assert(pgs[k as int].group as int == gi as int);
                    assert(pgs[k as int].tests@[w as int] < entries[gi as int].tests@.len());
                }
                let ti = p.groups[k].tests[w] as usize;
                push_test_block(suite, gi, ti, &mut out);
                w = w + 1;
            }
            proof {
                assert(pgs[k as int].tests@.take(ntests as int) =~= pgs[k as int].tests@);
            }
            let has_after = suite.entries[gi].group.after.is_some();
            if has_after {
                out.push(Step::GroupAfter { group: gi });
            }
            proof {
                assert(gi as int == pgs[k as int].group as int);
                assert(out@ =~= block_base + ((if g.before is Some {
                    seq![Step::GroupBefore { group: gi }]
                } else {
                    Seq::<Step>::empty()
                }) + tests_steps(gi, pgs[k as int].tests@, g, hooks) + (if g.after is Some {
                    seq![Step::GroupAfter { group: gi }]
                } else {
                    Seq::<Step>::empty()
                })));
                assert(out@ =~= block_base + group_block(pgs[k as int], entries, hooks));
            }
        } else {
            proof {
                assert(group_block(pgs[k as int], entries, hooks) =~= Seq::<Step>::empty());
                assert(out@ =~= block_base + group_block(pgs[k as int], entries, hooks));
            }
        }
        k = k + 1;
    }
    proof {
        assert(pgs.take(pgs.len() as int) =~= pgs);
    }
    if with_suite {
        push_suite_after(&suite.suite_hooks, &mut out);
    }
    proof {
        assert(out@ =~= plan_steps(pgs, entries, hooks));
    }
    out
}

/// A step's indices are valid for a suite with `ne` entries, `nh` suite
/// hooks, and `nt(g)` tests in entry `g`.
pub open spec fn step_in_bounds(st: Step, entries: Seq<GroupEntry>, hooks: Seq<SuiteHook>) -> bool {
    match st {
        Step::SuiteBefore { hook } => hook < hooks.len(),
        Step::GroupBefore { group } => group < entries.len(),
        Step::SuiteBeforeEach { hook } => hook < hooks.len(),
        Step::GroupBeforeEach { group } => group < entries.len(),
        Step::RunTest { group, test } => group < entries.len() && test < entries[
            group as int
        ].tests@.len(),
        Step::GroupAfterEach { group } => group < entries.len(),
        Step::SuiteAfterEach { hook } => hook < hooks.len(),
        Step::GroupAfter { group } => group < entries.len(),
        Step::SuiteAfter { hook } => hook < hooks.len(),
    }
}

/// All steps of a sequence are in bounds.
pub open spec fn steps_seq_in_bounds(
    s: Seq<Step>,
    entries: Seq<GroupEntry>,
    hooks: Seq<SuiteHook>,
) -> bool {
    forall|i: int| 0 <= i < s.len() ==> step_in_bounds(#[trigger] s[i], entries, hooks)
}

/// Bounded step sequences stay bounded under concatenation.
proof fn lemma_bounds_concat(
    a: Seq<Step>,
    b: Seq<Step>,
    entries: Seq<GroupEntry>,
    hooks: Seq<SuiteHook>,
)
    requires
        steps_seq_in_bounds(a, entries, hooks),
        steps_seq_in_bounds(b, entries, hooks),
    ensures
        steps_seq_in_bounds(a + b, entries, hooks),
{
    assert forall|i: int| 0 <= i < (a + b).len() implies step_in_bounds(
        #[trigger] (a + b)[i],
        entries,
        hooks,
    ) by {
        if i < a.len() {
            assert((a + b)[i] == a[i]);
        } else {
            assert((a + b)[i] == b[i - a.len()]);
        }
    }
}

/// The suite hook layers only mention real hook indices.
proof fn lemma_suite_layers_bounded(
    hooks_pre: Seq<SuiteHook>,
    entries: Seq<GroupEntry>,
    hooks: Seq<SuiteHook>,
)
    requires
        hooks_pre.len() <= hooks.len(),
    ensures
        steps_seq_in_bounds(suite_before_steps(hooks_pre), entries, hooks),
        steps_seq_in_bounds(suite_before_each_steps(hooks_pre), entries, hooks),
        steps_seq_in_bounds(suite_after_each_steps(hooks_pre), entries, hooks),
        steps_seq_in_bounds(suite_after_steps(hooks_pre), entries, hooks),
    decreases hooks_pre.len(),
{
    if hooks_pre.len() > 0 {
        lemma_suite_layers_bounded(hooks_pre.drop_last(), entries, hooks);
        lemma_bounds_concat(
            suite_before_steps(hooks_pre.drop_last()),
            suite_before_steps(hooks_pre).skip(suite_before_steps(hooks_pre.drop_last()).len() as int),
            entries,
            hooks,
        );
        assert forall|i: int|
            0 <= i < suite_before_steps(hooks_pre).len() implies step_in_bounds(
            #[trigger] suite_before_steps(hooks_pre)[i],
            entries,
            hooks,
        ) by {
            let pre = suite_before_steps(hooks_pre.drop_last());
            if i < pre.len() {
                assert(suite_before_steps(hooks_pre)[i] == pre[i]);
            }
        }
        assert forall|i: int|
            0 <= i < suite_before_each_steps(hooks_pre).len() implies step_in_bounds(
            #[trigger] suite_before_each_steps(hooks_pre)[i],
            entries,
            hooks,
        ) by {
            let pre = suite_before_each_steps(hooks_pre.drop_last());
            if i < pre.len() {
                assert(suite_before_each_steps(hooks_pre)[i] == pre[i]);
            }
        }
        assert forall|i: int|
            0 <= i < suite_after_each_steps(hooks_pre).len() implies step_in_bounds(
            #[trigger] suite_after_each_steps(hooks_pre)[i],
            entries,
            hooks,
        ) by {
            let head_len = if hooks_pre.last().kind is AfterEach {
                1int
            } else {
                0int
            };
            if i >= head_len {
                assert(suite_after_each_steps(hooks_pre)[i] == suite_after_each_steps(
                    hooks_pre.drop_last(),
                )[i - head_len]);
            }
        }
        assert forall|i: int|
            0 <= i < suite_after_steps(hooks_pre).len() implies step_in_bounds(
            #[trigger] suite_after_steps(hooks_pre)[i],
            entries,
            hooks,
        ) by {
            let head_len = if hooks_pre.last().kind is After {
                1int
            } else {
                0int
            };
            if i >= head_len {
                assert(suite_after_steps(hooks_pre)[i] == suite_after_steps(
                    hooks_pre.drop_last(),
                )[i - head_len]);
            }
        }
    }
}

/// The blocks of one group only mention its own valid indices.
proof fn lemma_tests_steps_bounded(
    gi: usize,
    tids: Seq<u64>,
    g: TestGroup,
    entries: Seq<GroupEntry>,
    hooks: Seq<SuiteHook>,
)
    requires
        gi < entries.len(),
        entries[gi as int].tests@.len() <= usize::MAX,
        forall|w: int| 0 <= w < tids.len() ==> #[trigger] tids[w] < entries[gi as int].tests@.len(),
    ensures
        steps_seq_in_bounds(tests_steps(gi, tids, g, hooks), entries, hooks),
    decreases tids.len(),
{
    lemma_suite_layers_bounded(hooks, entries, hooks);
    if tids.len() > 0 {
        lemma_tests_steps_bounded(gi, tids.drop_last(), g, entries, hooks);
        let tb = test_block(gi, tids.last() as usize, g, hooks);
        assert(steps_seq_in_bounds(tb, entries, hooks)) by {
            lemma_bounds_concat(
                (if g.suite {
                    suite_before_each_steps(hooks)
                } else {
                    Seq::<Step>::empty()
                }),
                (if g.before_each is Some {
                    seq![Step::GroupBeforeEach { group: gi }]
                } else {
                    Seq::<Step>::empty()
                }),
                entries,
                hooks,
            );
            assert(tids.last() < entries[gi as int].tests@.len());
            assert forall|i: int| 0 <= i < tb.len() implies step_in_bounds(
                #[trigger] tb[i],
                entries,
                hooks,
            ) by {
                lemma_test_block_elem(gi, tids.last() as usize, g, entries, hooks, i);
            }
        }
        lemma_bounds_concat(tests_steps(gi, tids.drop_last(), g, hooks), tb, entries, hooks);
    }
}

/// Case analysis on one element of a test block: it is a per-test layer
/// step of this group, or the body itself.
proof fn lemma_test_block_elem(
    gi: usize,
    ti: usize,
    g: TestGroup,
    entries: Seq<GroupEntry>,
    hooks: Seq<SuiteHook>,
    i: int,
)
    requires
        gi < entries.len(),
        ti < entries[gi as int].tests@.len(),
        0 <= i < test_block(gi, ti, g, hooks).len(),
    ensures
        step_in_bounds(test_block(gi, ti, g, hooks)[i], entries, hooks),
{
    lemma_suite_layers_bounded(hooks, entries, hooks);
    let sbe = if g.suite {
        suite_before_each_steps(hooks)
    } else {
        Seq::<Step>::empty()
    };
    let gbe = if g.before_each is Some {
        seq![Step::GroupBeforeEach { group: gi }]
    } else {
        Seq::<Step>::empty()
    };
    let body = seq![Step::RunTest { group: gi, test: ti }];
    let gae = if g.after_each is Some {
        seq![Step::GroupAfterEach { group: gi }]
    } else {
        Seq::<Step>::empty()
    };
    let sae = if g.suite {
        suite_after_each_steps(hooks)
    } else {
        Seq::<Step>::empty()
    };
    let tb = test_block(gi, ti, g, hooks);
    assert(tb =~= sbe + gbe + body + gae + sae);
    if i < sbe.len() {
        assert(tb[i] == sbe[i]);
    } else if i < sbe.len() + gbe.len() {
        assert(tb[i] == gbe[i - sbe.len()]);
    } else if i < sbe.len() + gbe.len() + 1 {
        assert(tb[i] == body[0]);
    } else if i < sbe.len() + gbe.len() + 1 + gae.len() {
        assert(tb[i] == gae[i - sbe.len() - gbe.len() - 1]);
    } else {
        assert(tb[i] == sae[i - sbe.len() - gbe.len() - 1 - gae.len()]);
    }
}

/// Every step unfolded from an in-bounds plan is in bounds.
pub proof fn lemma_plan_steps_bounded(
    pgs: Seq<PlanEntry>,
    entries: Seq<GroupEntry>,
    hooks: Seq<SuiteHook>,
)
    requires
        plan_in_bounds(pgs, entries),
    ensures
        steps_seq_in_bounds(plan_steps(pgs, entries, hooks), entries, hooks),
{
    lemma_suite_layers_bounded(hooks, entries, hooks);
    lemma_blocks_bounded(pgs, entries, hooks);
    lemma_bounds_concat(
        (if any_opted(pgs, entries) {
            suite_before_steps(hooks)
        } else {
            Seq::<Step>::empty()
        }),
        blocks(pgs, entries, hooks),
        entries,
        hooks,
    );
    lemma_bounds_concat(
        (if any_opted(pgs, entries) {
            suite_before_steps(hooks)
        } else {
            Seq::<Step>::empty()
        }) + blocks(pgs, entries, hooks),
        (if any_opted(pgs, entries) {
            suite_after_steps(hooks)
        } else {
            Seq::<Step>::empty()
        }),
        entries,
        hooks,
    );
}

/// The group blocks of an in-bounds plan are in bounds.
proof fn lemma_blocks_bounded(pgs: Seq<PlanEntry>, entries: Seq<GroupEntry>, hooks: Seq<SuiteHook>)
    requires
        plan_in_bounds(pgs, entries),
    ensures
        steps_seq_in_bounds(blocks(pgs, entries, hooks), entries, hooks),
    decreases pgs.len(),
{
    if pgs.len() > 0 {
        assert(plan_in_bounds(pgs.drop_last(), entries)) by {
            assert forall|k: int| 0 <= k < pgs.drop_last().len() implies {
                &&& (#[trigger] pgs.drop_last()[k]).group < entries.len()
                &&& forall|w: int|
                    0 <= w < pgs.drop_last()[k].tests@.len() ==> #[trigger] pgs.drop_last()[
                        k
                    ].tests@[w] < entries[pgs.drop_last()[k].group as int].tests@.len()
            } by {
                assert(pgs.drop_last()[k] == pgs[k]);
            }
        }
        lemma_blocks_bounded(pgs.drop_last(), entries, hooks);
        let pe = pgs.last();
        assert(pe == pgs[pgs.len() - 1]);
        let gb = group_block(pe, entries, hooks);
        assert(steps_seq_in_bounds(gb, entries, hooks)) by {
            if pe.tests@.len() > 0 {
                let g = entries[pe.group as int].group;
                lemma_tests_steps_bounded(pe.group as usize, pe.tests@, g, entries, hooks);
                let bpart = if g.before is Some {
                    seq![Step::GroupBefore { group: pe.group as usize }]
                } else {
                    Seq::<Step>::empty()
                };
                let apart = if g.after is Some {
                    seq![Step::GroupAfter { group: pe.group as usize }]
                } else {
                    Seq::<Step>::empty()
                };
                lemma_bounds_concat(
                    bpart,
                    tests_steps(pe.group as usize, pe.tests@, g, hooks),
                    entries,
                    hooks,
                );
                lemma_bounds_concat(
                    bpart + tests_steps(pe.group as usize, pe.tests@, g, hooks),
                    apart,
                    entries,
                    hooks,
                );
            }
        }
        lemma_bounds_concat(blocks(pgs.drop_last(), entries, hooks), gb, entries, hooks);
    }
}

} // verus!
