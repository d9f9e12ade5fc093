//! The guarantees of the unfolded execution order, stated and proved over
//! [`crate::steps::plan_steps`]: group `before` and `after` fire exactly
//! once per group with scheduled tests, every scheduled test body appears
//! exactly once, per-test teardown appears once per test whatever the
//! outcome, the suite layer fires once per process and once per opted-in
//! test, setup precedes the tests, and teardown follows the last of them.

use vstd::prelude::*;
use crate::engine::count_run_tests;
use crate::registry::GroupEntry;
use crate::sched::{index_seq, plan_group_seq, plan_matches, ExecutionPlan, PlanEntry};
use crate::steps::{any_opted, blocks, group_block, opted, plan_steps, suite_after_each_steps,
    suite_after_steps, suite_before_each_steps, suite_before_steps, test_block, tests_steps, Step};
use crate::types::{SuiteHook, TestGroup};

verus! {

/// How many steps of `s` equal `st0`.
pub open spec fn count_step(s: Seq<Step>, st0: Step) -> nat {
    s.filter(|st: Step| st == st0).len()
}

/// Whether a step is the body of some test of group `gi`.
pub open spec fn is_run_of(st: Step, gi: usize) -> bool {
    st matches Step::RunTest { group, test } && group == gi
}

/// How many steps of `s` are test bodies of group `gi`.
pub open spec fn count_runs_of(s: Seq<Step>, gi: usize) -> nat {
    s.filter(|st: Step| is_run_of(st, gi)).len()
}

/// Exact-step counts add up over concatenation.
proof fn lemma_count_concat(a: Seq<Step>, b: Seq<Step>, st0: Step)
    ensures
        count_step(a + b, st0) == count_step(a, st0) + count_step(b, st0),
{
    broadcast use vstd::seq_lib::group_seq_lib_default;

    assert((a + b).filter(|st: Step| st == st0) == a.filter(|st: Step| st == st0) + b.filter(
        |st: Step| st == st0,
    ));
}

/// Per-group body counts add up over concatenation.
proof fn lemma_count_runs_concat(a: Seq<Step>, b: Seq<Step>, gi: usize)
    ensures
        count_runs_of(a + b, gi) == count_runs_of(a, gi) + count_runs_of(b, gi),
{
    broadcast use vstd::seq_lib::group_seq_lib_default;

    assert((a + b).filter(|st: Step| is_run_of(st, gi)) == a.filter(|st: Step| is_run_of(st, gi))
        + b.filter(|st: Step| is_run_of(st, gi)));
}

/// A sequence without matches counts zero.
proof fn lemma_count_zero(s: Seq<Step>, st0: Step)
    requires
        forall|i: int| 0 <= i < s.len() ==> s[i] != st0,
    ensures
        count_step(s, st0) == 0,
    decreases s.len(),
{
    reveal(Seq::filter);
    if s.len() > 0 {
        lemma_count_zero(s.drop_last(), st0);
    }
}

/// A sequence without bodies of group `gi` counts zero for it.
proof fn lemma_count_runs_zero(s: Seq<Step>, gi: usize)
    requires
        forall|i: int| 0 <= i < s.len() ==> !is_run_of(#[trigger] s[i], gi),
    ensures
        count_runs_of(s, gi) == 0,
    decreases s.len(),
{
    reveal(Seq::filter);
    if s.len() > 0 {
        lemma_count_runs_zero(s.drop_last(), gi);
    }
}

/// A singleton counts one for itself and zero otherwise.
proof fn lemma_count_singleton(st: Step, st0: Step)
    ensures
        count_step(seq![st], st0) == (if st == st0 {
            1nat
        } else {
            0nat
        }),
{
    reveal(Seq::filter);
    assert(seq![st].drop_last() =~= Seq::<Step>::empty());
    lemma_count_zero(Seq::<Step>::empty(), st0);
    assert(seq![st].last() == st);
}

/// Every step of the suite `before` layer is a `SuiteBefore` of a real
/// `Before` hook, and each such hook appears exactly once.
#[verifier::rlimit(50)]
proof fn lemma_suite_before_layer(hooks: Seq<SuiteHook>, h: usize)
    requires
        hooks.len() <= usize::MAX,
    ensures
        forall|i: int|
            0 <= i < suite_before_steps(hooks).len() ==> (#[trigger] suite_before_steps(hooks)[i]
                matches Step::SuiteBefore { hook } && hook < hooks.len() && hooks[
                hook as int
            ].kind is Before),
        count_step(
            suite_before_steps(hooks),
            Step::SuiteBefore { hook: h },
        ) == (if h < hooks.len() && hooks[h as int].kind is Before {
            1nat
        } else {
            0nat
        }),
    decreases hooks.len(),
{
    if hooks.len() == 0 {
        lemma_count_zero(suite_before_steps(hooks), Step::SuiteBefore { hook: h });
    } else {
        lemma_suite_before_layer(hooks.drop_last(), h);
        let pre = suite_before_steps(hooks.drop_last());
        let tail = if hooks.last().kind is Before {
            seq![Step::SuiteBefore { hook: (hooks.len() - 1) as usize }]
        } else {
            Seq::<Step>::empty()
        };
        assert(suite_before_steps(hooks) == pre + tail);
        lemma_count_concat(pre, tail, Step::SuiteBefore { hook: h });
        if hooks.last().kind is Before {
            lemma_count_singleton(
                Step::SuiteBefore { hook: (hooks.len() - 1) as usize },
                Step::SuiteBefore { hook: h },
            );
        } else {
            lemma_count_zero(tail, Step::SuiteBefore { hook: h });
        }
        assert forall|i: int|
            0 <= i < suite_before_steps(hooks).len() implies #[trigger] suite_before_steps(
            hooks,
        )[i] matches Step::SuiteBefore { hook } && hook < hooks.len() && hooks[
            hook as int
        ].kind is Before by {
            if i < pre.len() {
                assert(suite_before_steps(hooks)[i] == pre[i]);
            } else {
                assert(suite_before_steps(hooks)[i] == tail[i - pre.len()]);
            }
        }
    }
}

/// Every step of the suite `after` layer is a `SuiteAfter` of a real
/// `After` hook, and each such hook appears exactly once.
#[verifier::rlimit(50)]
proof fn lemma_suite_after_layer(hooks: Seq<SuiteHook>, h: usize)
    requires
        hooks.len() <= usize::MAX,
    ensures
        forall|i: int|
            0 <= i < suite_after_steps(hooks).len() ==> (#[trigger] suite_after_steps(hooks)[i]
                matches Step::SuiteAfter { hook } && hook < hooks.len() && hooks[
                hook as int
            ].kind is After),
        count_step(
            suite_after_steps(hooks),
            Step::SuiteAfter { hook: h },
        ) == (if h < hooks.len() && hooks[h as int].kind is After {
            1nat
        } else {
            0nat
        }),
    decreases hooks.len(),
{
    if hooks.len() == 0 {
        lemma_count_zero(suite_after_steps(hooks), Step::SuiteAfter { hook: h });
    } else {
        lemma_suite_after_layer(hooks.drop_last(), h);
        let tail = suite_after_steps(hooks.drop_last());
        let head = if hooks.last().kind is After {
            seq![Step::SuiteAfter { hook: (hooks.len() - 1) as usize }]
        } else {
            Seq::<Step>::empty()
        };
        assert(suite_after_steps(hooks) == head + tail);
        lemma_count_concat(head, tail, Step::SuiteAfter { hook: h });
        if hooks.last().kind is After {
            lemma_count_singleton(
                Step::SuiteAfter { hook: (hooks.len() - 1) as usize },
                Step::SuiteAfter { hook: h },
            );
        } else {
            lemma_count_zero(head, Step::SuiteAfter { hook: h });
        }
        assert forall|i: int|
            0 <= i < suite_after_steps(hooks).len() implies #[trigger] suite_after_steps(hooks)[i]
            matches Step::SuiteAfter { hook } && hook < hooks.len() && hooks[
            hook as int
        ].kind is After by {
            if i < head.len() {
                assert(suite_after_steps(hooks)[i] == head[i]);
            } else {
                assert(suite_after_steps(hooks)[i] == tail[i - head.len()]);
            }
        }
    }
}

/// Every step of the suite `before_each` layer is a `SuiteBeforeEach` of a
/// real `BeforeEach` hook, and each such hook appears exactly once.
#[verifier::rlimit(50)]
proof fn lemma_suite_before_each_layer(hooks: Seq<SuiteHook>, h: usize)
    requires
        hooks.len() <= usize::MAX,
    ensures
        forall|i: int|
            0 <= i < suite_before_each_steps(hooks).len() ==> (#[trigger] suite_before_each_steps(
                hooks,
            )[i] matches Step::SuiteBeforeEach { hook } && hook < hooks.len() && hooks[
                hook as int
            ].kind is BeforeEach),
        count_step(
            suite_before_each_steps(hooks),
            Step::SuiteBeforeEach { hook: h },
        ) == (if h < hooks.len() && hooks[h as int].kind is BeforeEach {
            1nat
        } else {
            0nat
        }),
    decreases hooks.len(),
{
    if hooks.len() == 0 {
        lemma_count_zero(suite_before_each_steps(hooks), Step::SuiteBeforeEach { hook: h });
    } else {
        lemma_suite_before_each_layer(hooks.drop_last(), h);
        let pre = suite_before_each_steps(hooks.drop_last());
        let tail = if hooks.last().kind is BeforeEach {
            seq![Step::SuiteBeforeEach { hook: (hooks.len() - 1) as usize }]
        } else {
            Seq::<Step>::empty()
        };
        assert(suite_before_each_steps(hooks) == pre + tail);
        lemma_count_concat(pre, tail, Step::SuiteBeforeEach { hook: h });
        if hooks.last().kind is BeforeEach {
            lemma_count_singleton(
                Step::SuiteBeforeEach { hook: (hooks.len() - 1) as usize },
                Step::SuiteBeforeEach { hook: h },
            );
        } else {
            lemma_count_zero(tail, Step::SuiteBeforeEach { hook: h });
        }
        assert forall|i: int|
            0 <= i < suite_before_each_steps(hooks).len() implies #[trigger] suite_before_each_steps(
            hooks,
        )[i] matches Step::SuiteBeforeEach { hook } && hook < hooks.len() && hooks[
            hook as int
        ].kind is BeforeEach by {
            if i < pre.len() {
                assert(suite_before_each_steps(hooks)[i] == pre[i]);
            } else {
                assert(suite_before_each_steps(hooks)[i] == tail[i - pre.len()]);
            }
        }
    }
}

/// Every step of the suite `after_each` layer is a `SuiteAfterEach` of a
/// real `AfterEach` hook, and each such hook appears exactly once.
#[verifier::rlimit(50)]
proof fn lemma_suite_after_each_layer(hooks: Seq<SuiteHook>, h: usize)
    requires
        hooks.len() <= usize::MAX,
    ensures
        forall|i: int|
            0 <= i < suite_after_each_steps(hooks).len() ==> (#[trigger] suite_after_each_steps(
                hooks,
            )[i] matches Step::SuiteAfterEach { hook } && hook < hooks.len() && hooks[
                hook as int
            ].kind is AfterEach),
        count_step(
            suite_after_each_steps(hooks),
            Step::SuiteAfterEach { hook: h },
        ) == (if h < hooks.len() && hooks[h as int].kind is AfterEach {
            1nat
        } else {
            0nat
        }),
    decreases hooks.len(),
{
    if hooks.len() == 0 {
        lemma_count_zero(suite_after_each_steps(hooks), Step::SuiteAfterEach { hook: h });
    } else {
        lemma_suite_after_each_layer(hooks.drop_last(), h);
        let tail = suite_after_each_steps(hooks.drop_last());
        let head = if hooks.last().kind is AfterEach {
            seq![Step::SuiteAfterEach { hook: (hooks.len() - 1) as usize }]
        } else {
            Seq::<Step>::empty()
        };
        assert(suite_after_each_steps(hooks) == head + tail);
        lemma_count_concat(head, tail, Step::SuiteAfterEach { hook: h });
        if hooks.last().kind is AfterEach {
            lemma_count_singleton(
                Step::SuiteAfterEach { hook: (hooks.len() - 1) as usize },
                Step::SuiteAfterEach { hook: h },
            );
        } else {
            lemma_count_zero(head, Step::SuiteAfterEach { hook: h });
        }
        assert forall|i: int|
            0 <= i < suite_after_each_steps(hooks).len() implies #[trigger] suite_after_each_steps(
            hooks,
        )[i] matches Step::SuiteAfterEach { hook } && hook < hooks.len() && hooks[
            hook as int
        ].kind is AfterEach by {
            if i < head.len() {
                assert(suite_after_each_steps(hooks)[i] == head[i]);
            } else {
                assert(suite_after_each_steps(hooks)[i] == tail[i - head.len()]);
            }
        }
    }
}

/// An element that satisfies the filter makes the count positive.
proof fn lemma_count_pos(s: Seq<Step>, st0: Step, i: int)
    requires
        0 <= i < s.len(),
        s[i] == st0,
    ensures
        count_step(s, st0) > 0,
    decreases s.len(),
{
    reveal(Seq::filter);
    if i < s.len() - 1 {
        lemma_count_pos(s.drop_last(), st0, i);
    }
}

/// A test body of group `gi` in the sequence makes its body count positive.
proof fn lemma_count_runs_pos(s: Seq<Step>, gi: usize, i: int)
    requires
        0 <= i < s.len(),
        is_run_of(s[i], gi),
    ensures
        count_runs_of(s, gi) > 0,
    decreases s.len(),
{
    reveal(Seq::filter);
    if i < s.len() - 1 {
        lemma_count_runs_pos(s.drop_last(), gi, i);
    }
}

/// The five parts of a test block.
spec fn tb_parts(gi: usize, ti: usize, g: TestGroup, hooks: Seq<SuiteHook>) -> (
    Seq<Step>,
    Seq<Step>,
    Seq<Step>,
    Seq<Step>,
    Seq<Step>,
) {
    (
        (if g.suite {
            suite_before_each_steps(hooks)
        } else {
            Seq::<Step>::empty()
        }),
        (if g.before_each is Some {
            seq![Step::GroupBeforeEach { group: gi }]
        } else {
            Seq::<Step>::empty()
        }),
        seq![Step::RunTest { group: gi, test: ti }],
        (if g.after_each is Some {
            seq![Step::GroupAfterEach { group: gi }]
        } else {
            Seq::<Step>::empty()
        }),
        (if g.suite {
            suite_after_each_steps(hooks)
        } else {
            Seq::<Step>::empty()
        }),
    )
}

/// Step counts in one test block: one body, one per-test hook of each
/// declared kind, one suite per-test hook of each kind when opted in, and
/// nothing of any other group or layer.
proof fn lemma_test_block_counts(gi: usize, ti: usize, g: TestGroup, hooks: Seq<SuiteHook>, st0: Step)
    requires
        hooks.len() <= usize::MAX,
    ensures
        count_step(test_block(gi, ti, g, hooks), st0) == (match st0 {
            Step::GroupBeforeEach { group } => if group == gi && g.before_each is Some {
                1nat
            } else {
                0nat
            },
            Step::GroupAfterEach { group } => if group == gi && g.after_each is Some {
                1nat
            } else {
                0nat
            },
            Step::RunTest { group, test } => if group == gi && test == ti {
                1nat
            } else {
                0nat
            },
            Step::SuiteBeforeEach { hook } => if g.suite && hook < hooks.len() && hooks[
                hook as int
            ].kind is BeforeEach {
                1nat
            } else {
                0nat
            },
            Step::SuiteAfterEach { hook } => if g.suite && hook < hooks.len() && hooks[
                hook as int
            ].kind is AfterEach {
                1nat
            } else {
                0nat
            },
            _ => 0nat,
        }),
        count_runs_of(test_block(gi, ti, g, hooks), gi) == 1,
        forall|x: usize|
            x != gi ==> #[trigger] count_runs_of(test_block(gi, ti, g, hooks), x) == 0,
{
    let (sbe, gbe, body, gae, sae) = tb_parts(gi, ti, g, hooks);
    let tb = test_block(gi, ti, g, hooks);
    assert(tb == sbe + gbe + body + gae + sae);
    lemma_suite_before_each_layer(hooks, 0);
    lemma_suite_after_each_layer(hooks, 0);
    lemma_count_concat(sbe, gbe, st0);
    lemma_count_concat(sbe + gbe, body, st0);
    lemma_count_concat(sbe + gbe + body, gae, st0);
    lemma_count_concat(sbe + gbe + body + gae, sae, st0);
    // counts of the two suite layers
    match st0 {
        Step::SuiteBeforeEach { hook } => {
            if g.suite {
                lemma_suite_before_each_layer(hooks, hook);
            } else {
                lemma_count_zero(sbe, st0);
            }
        },
        _ => {
            lemma_count_zero(sbe, st0);
        },
    }
    match st0 {
        Step::SuiteAfterEach { hook } => {
            if g.suite {
                lemma_suite_after_each_layer(hooks, hook);
            } else {
                lemma_count_zero(sae, st0);
            }
        },
        _ => {
            lemma_count_zero(sae, st0);
        },
    }
    // counts of the three singletons
    if g.before_each is Some {
        lemma_count_singleton(Step::GroupBeforeEach { group: gi }, st0);
    } else {
        lemma_count_zero(gbe, st0);
    }
    lemma_count_singleton(Step::RunTest { group: gi, test: ti }, st0);
    if g.after_each is Some {
        lemma_count_singleton(Step::GroupAfterEach { group: gi }, st0);
    } else {
        lemma_count_zero(gae, st0);
    }
    // per-group body count
    lemma_count_runs_concat(sbe, gbe, gi);
    lemma_count_runs_concat(sbe + gbe, body, gi);
    lemma_count_runs_concat(sbe + gbe + body, gae, gi);
    lemma_count_runs_concat(sbe + gbe + body + gae, sae, gi);
    lemma_count_runs_zero(sbe, gi);
    lemma_count_runs_zero(gbe, gi);
    lemma_count_runs_zero(gae, gi);
    lemma_count_runs_zero(sae, gi);
    assert(count_runs_of(body, gi) == 1) by {
        reveal(Seq::filter);
        assert(body.drop_last() =~= Seq::<Step>::empty());
        lemma_count_runs_zero(Seq::<Step>::empty(), gi);
    }
    assert forall|x: usize| x != gi implies #[trigger] count_runs_of(tb, x) == 0 by {
        lemma_count_runs_concat(sbe, gbe, x);
        lemma_count_runs_concat(sbe + gbe, body, x);
        lemma_count_runs_concat(sbe + gbe + body, gae, x);
        lemma_count_runs_concat(sbe + gbe + body + gae, sae, x);
        lemma_count_runs_zero(sbe, x);
        lemma_count_runs_zero(gbe, x);
        lemma_count_runs_zero(body, x);
        lemma_count_runs_zero(gae, x);
        lemma_count_runs_zero(sae, x);
    }
}

/// Step counts over all test blocks of one group: everything per-test
/// multiplies by the number of scheduled tests.
proof fn lemma_tests_steps_counts(
    gi: usize,
    tids: Seq<u64>,
    g: TestGroup,
    hooks: Seq<SuiteHook>,
    st0: Step,
)
    requires
        hooks.len() <= usize::MAX,
    ensures
        count_step(tests_steps(gi, tids, g, hooks), st0) == (match st0 {
            Step::GroupBeforeEach { group } => if group == gi && g.before_each is Some {
                tids.len()
            } else {
                0
            },
            Step::GroupAfterEach { group } => if group == gi && g.after_each is Some {
                tids.len()
            } else {
                0
            },
            Step::RunTest { group, test } => if group != gi {
                0nat
            } else {
                count_step(tests_steps(gi, tids, g, hooks), st0)
            },
            Step::SuiteBeforeEach { hook } => if g.suite && hook < hooks.len() && hooks[
                hook as int
            ].kind is BeforeEach {
                tids.len()
            } else {
                0
            },
            Step::SuiteAfterEach { hook } => if g.suite && hook < hooks.len() && hooks[
                hook as int
            ].kind is AfterEach {
                tids.len()
            } else {
                0
            },
            _ => 0nat,
        }),
        count_runs_of(tests_steps(gi, tids, g, hooks), gi) == tids.len(),
        forall|x: usize|
            x != gi ==> #[trigger] count_runs_of(tests_steps(gi, tids, g, hooks), x) == 0,
    decreases tids.len(),
{
    let ts = tests_steps(gi, tids, g, hooks);
    if tids.len() == 0 {
        lemma_count_zero(ts, st0);
        lemma_count_runs_zero(ts, gi);
        assert forall|x: usize| x != gi implies #[trigger] count_runs_of(ts, x) == 0 by {
            lemma_count_runs_zero(ts, x);
        }
    } else {
        lemma_tests_steps_counts(gi, tids.drop_last(), g, hooks, st0);
        let pre = tests_steps(gi, tids.drop_last(), g, hooks);
        let tb = test_block(gi, tids.last() as usize, g, hooks);
        assert(ts == pre + tb);
        lemma_count_concat(pre, tb, st0);
        lemma_test_block_counts(gi, tids.last() as usize, g, hooks, st0);
        lemma_count_runs_concat(pre, tb, gi);
        assert forall|x: usize| x != gi implies #[trigger] count_runs_of(ts, x) == 0 by {
            lemma_count_runs_concat(pre, tb, x);
        }
    }
}

/// Step counts in one group block: `before` and `after` once each when
/// declared and the group has tests, each per-test hook once per test, one
/// body per scheduled test, and nothing of any other group.
proof fn lemma_group_block_counts(
    pe: PlanEntry,
    entries: Seq<GroupEntry>,
    hooks: Seq<SuiteHook>,
    st0: Step,
)
    requires
        hooks.len() <= usize::MAX,
        entries.len() <= usize::MAX,
        pe.group < entries.len(),
    ensures
        ({
            let g = entries[pe.group as int].group;
            let gi = pe.group as usize;
            let n = pe.tests@.len();
            count_step(group_block(pe, entries, hooks), st0) == (if n == 0 {
                0nat
            } else {
                match st0 {
                    Step::GroupBefore { group } => if group == gi && g.before is Some {
                        1nat
                    } else {
                        0nat
                    },
                    Step::GroupAfter { group } => if group == gi && g.after is Some {
                        1nat
                    } else {
                        0nat
                    },
                    Step::GroupBeforeEach { group } => if group == gi && g.before_each is Some {
                        n
                    } else {
                        0
                    },
                    Step::GroupAfterEach { group } => if group == gi && g.after_each is Some {
                        n
                    } else {
                        0
                    },
                    Step::RunTest { group, test } => if group != gi {
                        0nat
                    } else {
                        count_step(group_block(pe, entries, hooks), st0)
                    },
                    Step::SuiteBeforeEach { hook } => if g.suite && hook < hooks.len() && hooks[
                        hook as int
                    ].kind is BeforeEach {
                        n
                    } else {
                        0
                    },
                    Step::SuiteAfterEach { hook } => if g.suite && hook < hooks.len() && hooks[
                        hook as int
                    ].kind is AfterEach {
                        n
                    } else {
                        0
                    },
                    _ => 0nat,
                }
            })
        }),
        count_runs_of(group_block(pe, entries, hooks), pe.group as usize) == pe.tests@.len(),
        forall|x: usize|
            x != pe.group as usize ==> #[trigger] count_runs_of(
                group_block(pe, entries, hooks),
                x,
            ) == 0,
{
    let g = entries[pe.group as int].group;
    let gi = pe.group as usize;
    let gb = group_block(pe, entries, hooks);
    if pe.tests@.len() == 0 {
        lemma_count_zero(gb, st0);
        lemma_count_runs_zero(gb, gi);
        assert forall|x: usize| x != gi implies #[trigger] count_runs_of(gb, x) == 0 by {
            lemma_count_runs_zero(gb, x);
        }
    } else {
        let bpart = if g.before is Some {
            seq![Step::GroupBefore { group: gi }]
        } else {
            Seq::<Step>::empty()
        };
        let apart = if g.after is Some {
            seq![Step::GroupAfter { group: gi }]
        } else {
            Seq::<Step>::empty()
        };
        let mid = tests_steps(gi, pe.tests@, g, hooks);
        assert(gb == bpart + mid + apart);
        lemma_count_concat(bpart, mid, st0);
        lemma_count_concat(bpart + mid, apart, st0);
        lemma_tests_steps_counts(gi, pe.tests@, g, hooks, st0);
        if g.before is Some {
            lemma_count_singleton(Step::GroupBefore { group: gi }, st0);
        } else {
            lemma_count_zero(bpart, st0);
        }
        if g.after is Some {
            lemma_count_singleton(Step::GroupAfter { group: gi }, st0);
        } else {
            lemma_count_zero(apart, st0);
        }
        lemma_count_runs_concat(bpart, mid, gi);
        lemma_count_runs_concat(bpart + mid, apart, gi);
        lemma_count_runs_zero(bpart, gi);
        lemma_count_runs_zero(apart, gi);
        assert forall|x: usize| x != gi implies #[trigger] count_runs_of(gb, x) == 0 by {
            lemma_count_runs_concat(bpart, mid, x);
            lemma_count_runs_concat(bpart + mid, apart, x);
            lemma_count_runs_zero(bpart, x);
            lemma_count_runs_zero(apart, x);
        }
    }
}

/// The planned groups carry pairwise distinct entry indices.
pub open spec fn plan_groups_distinct(pgs: Seq<PlanEntry>) -> bool {
    forall|i: int, j: int| 0 <= i < j < pgs.len() ==> pgs[i].group != pgs[j].group
}

/// The total number of tests scheduled in groups that take part in the
/// suite-level hook layer.
pub open spec fn opted_test_count(pgs: Seq<PlanEntry>, entries: Seq<GroupEntry>) -> nat
    decreases pgs.len(),
{
    if pgs.len() == 0 {
        0
    } else {
        opted_test_count(pgs.drop_last(), entries) + (if opted(pgs.last(), entries) {
            pgs.last().tests@.len()
        } else {
            0
        })
    }
}

/// Step counts over all group blocks of a plan, for the steps of the group
/// planned at position `k`.
proof fn lemma_blocks_counts(
    pgs: Seq<PlanEntry>,
    entries: Seq<GroupEntry>,
    hooks: Seq<SuiteHook>,
    st0: Step,
    k: int,
)
    requires
        hooks.len() <= usize::MAX,
        entries.len() <= usize::MAX,
        forall|j: int| 0 <= j < pgs.len() ==> (#[trigger] pgs[j]).group < entries.len(),
        plan_groups_distinct(pgs),
        0 <= k < pgs.len(),
        step_of_group(st0, pgs[k].group as usize),
    ensures
        count_step(blocks(pgs, entries, hooks), st0) == count_step(
            group_block(pgs[k], entries, hooks),
            st0,
        ),
        count_runs_of(blocks(pgs, entries, hooks), pgs[k].group as usize) == pgs[
            k
        ].tests@.len(),
    decreases pgs.len(),
{
    let gi = pgs[k].group as usize;
    let bs = blocks(pgs, entries, hooks);
    let pre = blocks(pgs.drop_last(), entries, hooks);
    let gb = group_block(pgs.last(), entries, hooks);
    assert(bs == pre + gb);
    lemma_count_concat(pre, gb, st0);
    lemma_count_runs_concat(pre, gb, gi);
    if k == pgs.len() - 1 {
        lemma_blocks_group_zero(pgs.drop_last(), entries, hooks, st0, gi);
        lemma_group_block_counts(pgs[k], entries, hooks, st0);
    } else {
        assert(plan_groups_distinct(pgs.drop_last())) by {
            assert forall|i: int, j: int|
                0 <= i < j < pgs.drop_last().len() implies pgs.drop_last()[i].group != pgs.drop_last()[
                j
            ].group by {
                assert(pgs.drop_last()[i] == pgs[i]);
                assert(pgs.drop_last()[j] == pgs[j]);
            }
        }
        assert(pgs.drop_last()[k] == pgs[k]);
        lemma_blocks_counts(pgs.drop_last(), entries, hooks, st0, k);
        // the last block belongs to a different group
        assert(pgs.last().group != pgs[k].group);
        assert(pgs.last().group as usize != gi);
        lemma_group_block_counts(pgs.last(), entries, hooks, st0);
        assert(count_step(gb, st0) == 0);
    }
}

/// Whether a step belongs to the group layer of group `gi`.
pub open spec fn step_of_group(st: Step, gi: usize) -> bool {
    match st {
        Step::GroupBefore { group } => group == gi,
        Step::GroupBeforeEach { group } => group == gi,
        Step::RunTest { group, test } => group == gi,
        Step::GroupAfterEach { group } => group == gi,
        Step::GroupAfter { group } => group == gi,
        _ => false,
    }
}

/// Blocks of groups other than `gi` hold no step of group `gi`.
proof fn lemma_blocks_group_zero(
    pgs: Seq<PlanEntry>,
    entries: Seq<GroupEntry>,
    hooks: Seq<SuiteHook>,
    st0: Step,
    gi: usize,
)
    requires
        hooks.len() <= usize::MAX,
        entries.len() <= usize::MAX,
        forall|j: int| 0 <= j < pgs.len() ==> (#[trigger] pgs[j]).group < entries.len(),
        forall|j: int| 0 <= j < pgs.len() ==> (#[trigger] pgs[j]).group as usize != gi,
        step_of_group(st0, gi),
    ensures
        count_step(blocks(pgs, entries, hooks), st0) == 0,
        count_runs_of(blocks(pgs, entries, hooks), gi) == 0,
    decreases pgs.len(),
{
    let bs = blocks(pgs, entries, hooks);
    if pgs.len() == 0 {
        lemma_count_zero(bs, st0);
        lemma_count_runs_zero(bs, gi);
    } else {
        let pre = blocks(pgs.drop_last(), entries, hooks);
        let gb = group_block(pgs.last(), entries, hooks);
        assert(bs == pre + gb);
        lemma_blocks_group_zero(pgs.drop_last(), entries, hooks, st0, gi);
        lemma_count_concat(pre, gb, st0);
        lemma_count_runs_concat(pre, gb, gi);
        lemma_group_block_counts(pgs.last(), entries, hooks, st0);
        assert(pgs.last().group as usize != gi);
    }
}

/// Suite-layer step counts over all group blocks: the group blocks hold no
/// suite `before`/`after` step, and one suite per-test step per opted test.
proof fn lemma_blocks_suite_counts(
    pgs: Seq<PlanEntry>,
    entries: Seq<GroupEntry>,
    hooks: Seq<SuiteHook>,
    h: usize,
)
    requires
        hooks.len() <= usize::MAX,
        entries.len() <= usize::MAX,
        forall|j: int| 0 <= j < pgs.len() ==> (#[trigger] pgs[j]).group < entries.len(),
    ensures
        count_step(blocks(pgs, entries, hooks), Step::SuiteBefore { hook: h }) == 0,
        count_step(blocks(pgs, entries, hooks), Step::SuiteAfter { hook: h }) == 0,
        count_step(
            blocks(pgs, entries, hooks),
            Step::SuiteBeforeEach { hook: h },
        ) == (if h < hooks.len() && hooks[h as int].kind is BeforeEach {
            opted_test_count(pgs, entries)
        } else {
            0
        }),
        count_step(
            blocks(pgs, entries, hooks),
            Step::SuiteAfterEach { hook: h },
        ) == (if h < hooks.len() && hooks[h as int].kind is AfterEach {
            opted_test_count(pgs, entries)
        } else {
            0
        }),
    decreases pgs.len(),
{
    let bs = blocks(pgs, entries, hooks);
    if pgs.len() == 0 {
        lemma_count_zero(bs, Step::SuiteBefore { hook: h });
        lemma_count_zero(bs, Step::SuiteAfter { hook: h });
        lemma_count_zero(bs, Step::SuiteBeforeEach { hook: h });
        lemma_count_zero(bs, Step::SuiteAfterEach { hook: h });
    } else {
        let pre = blocks(pgs.drop_last(), entries, hooks);
        let gb = group_block(pgs.last(), entries, hooks);
        assert(bs == pre + gb);
        lemma_blocks_suite_counts(pgs.drop_last(), entries, hooks, h);
        lemma_count_concat(pre, gb, Step::SuiteBefore { hook: h });
        lemma_count_concat(pre, gb, Step::SuiteAfter { hook: h });
        lemma_count_concat(pre, gb, Step::SuiteBeforeEach { hook: h });
        lemma_count_concat(pre, gb, Step::SuiteAfterEach { hook: h });
        lemma_group_block_counts(pgs.last(), entries, hooks, Step::SuiteBefore { hook: h });
        lemma_group_block_counts(pgs.last(), entries, hooks, Step::SuiteAfter { hook: h });
        lemma_group_block_counts(pgs.last(), entries, hooks, Step::SuiteBeforeEach { hook: h });
        lemma_group_block_counts(pgs.last(), entries, hooks, Step::SuiteAfterEach { hook: h });
    }
}

/// The shared bounds every law below needs: real vector lengths and valid
/// plan indices.
pub open spec fn law_pre(pgs: Seq<PlanEntry>, entries: Seq<GroupEntry>, hooks: Seq<SuiteHook>) -> bool {
    &&& hooks.len() <= usize::MAX
    &&& entries.len() <= usize::MAX
    &&& forall|j: int| 0 <= j < pgs.len() ==> (#[trigger] pgs[j]).group < entries.len()
    &&& plan_groups_distinct(pgs)
}

/// Split the unfolded run into its suite layers and its group blocks.
proof fn lemma_plan_parts(
    pgs: Seq<PlanEntry>,
    entries: Seq<GroupEntry>,
    hooks: Seq<SuiteHook>,
    st0: Step,
    gi: usize,
)
    requires
        hooks.len() <= usize::MAX,
        step_of_group(st0, gi),
    ensures
        count_step(plan_steps(pgs, entries, hooks), st0) == count_step(
            blocks(pgs, entries, hooks),
            st0,
        ),
        count_runs_of(plan_steps(pgs, entries, hooks), gi) == count_runs_of(
            blocks(pgs, entries, hooks),
            gi,
        ),
{
    let head = if any_opted(pgs, entries) {
        suite_before_steps(hooks)
    } else {
        Seq::<Step>::empty()
    };
    let tail = if any_opted(pgs, entries) {
        suite_after_steps(hooks)
    } else {
        Seq::<Step>::empty()
    };
    let mid = blocks(pgs, entries, hooks);
    assert(plan_steps(pgs, entries, hooks) == head + mid + tail);
    lemma_count_concat(head, mid, st0);
    lemma_count_concat(head + mid, tail, st0);
    lemma_count_runs_concat(head, mid, gi);
    lemma_count_runs_concat(head + mid, tail, gi);
    lemma_suite_before_layer(hooks, 0);
    lemma_suite_after_layer(hooks, 0);
    lemma_count_zero(head, st0);
    lemma_count_zero(tail, st0);
    lemma_count_runs_zero(head, gi);
    lemma_count_runs_zero(tail, gi);
}

/// Exactly-once and once-per-test guarantees for the group planned at
/// position `k`:
///
/// - its `before` appears exactly once when declared and the group has
///   scheduled tests, and never otherwise;
/// - its `after` appears exactly once under the same condition — the
///   countdown over the group's tests fires it once, never twice;
/// - its `before_each` and `after_each` appear exactly once per scheduled
///   test, whatever the tests' outcomes;
/// - every scheduled test body appears exactly as often as it is
///   scheduled, and the group's bodies appear exactly `n` times in all.
pub proof fn lemma_group_layer_counts(
    pgs: Seq<PlanEntry>,
    entries: Seq<GroupEntry>,
    hooks: Seq<SuiteHook>,
    k: int,
)
    requires
        law_pre(pgs, entries, hooks),
        0 <= k < pgs.len(),
    ensures
        ({
            let gi = pgs[k].group as usize;
            let g = entries[gi as int].group;
            let n = pgs[k].tests@.len();
            let s = plan_steps(pgs, entries, hooks);
            &&& count_step(s, Step::GroupBefore { group: gi }) == (if n > 0 && g.before is Some {
                1nat
            } else {
                0nat
            })
            &&& count_step(s, Step::GroupAfter { group: gi }) == (if n > 0 && g.after is Some {
                1nat
            } else {
                0nat
            })
            &&& count_step(s, Step::GroupBeforeEach { group: gi }) == (if g.before_each is Some {
                n
            } else {
                0
            })
            &&& count_step(s, Step::GroupAfterEach { group: gi }) == (if g.after_each is Some {
                n
            } else {
                0
            })
            &&& count_runs_of(s, gi) == n
        }),
{
    let gi = pgs[k].group as usize;
    let g = entries[gi as int].group;
    assert(pgs[k].group as int == gi as int);
    lemma_plan_parts(pgs, entries, hooks, Step::GroupBefore { group: gi }, gi);
    lemma_blocks_counts(pgs, entries, hooks, Step::GroupBefore { group: gi }, k);
    lemma_group_block_counts(pgs[k], entries, hooks, Step::GroupBefore { group: gi });
    lemma_plan_parts(pgs, entries, hooks, Step::GroupAfter { group: gi }, gi);
    lemma_blocks_counts(pgs, entries, hooks, Step::GroupAfter { group: gi }, k);
    lemma_group_block_counts(pgs[k], entries, hooks, Step::GroupAfter { group: gi });
    lemma_plan_parts(pgs, entries, hooks, Step::GroupBeforeEach { group: gi }, gi);
    lemma_blocks_counts(pgs, entries, hooks, Step::GroupBeforeEach { group: gi }, k);
    lemma_group_block_counts(pgs[k], entries, hooks, Step::GroupBeforeEach { group: gi });
    lemma_plan_parts(pgs, entries, hooks, Step::GroupAfterEach { group: gi }, gi);
    lemma_blocks_counts(pgs, entries, hooks, Step::GroupAfterEach { group: gi }, k);
    lemma_group_block_counts(pgs[k], entries, hooks, Step::GroupAfterEach { group: gi });
}

/// The suite layer fires exactly once per process and exactly once per
/// opted-in test: each suite `before` and `after` hook appears exactly
/// once when any group opted in (and never otherwise), and each suite
/// `before_each` and `after_each` hook appears exactly once per test
/// scheduled in an opted-in group — `K` times in all, never more.
pub proof fn lemma_suite_layer_counts(
    pgs: Seq<PlanEntry>,
    entries: Seq<GroupEntry>,
    hooks: Seq<SuiteHook>,
    h: usize,
)
    requires
        law_pre(pgs, entries, hooks),
    ensures
        ({
            let s = plan_steps(pgs, entries, hooks);
            &&& count_step(s, Step::SuiteBefore { hook: h }) == (if any_opted(pgs, entries) && h
                < hooks.len() && hooks[h as int].kind is Before {
                1nat
            } else {
                0nat
            })
            &&& count_step(s, Step::SuiteAfter { hook: h }) == (if any_opted(pgs, entries) && h
                < hooks.len() && hooks[h as int].kind is After {
                1nat
            } else {
                0nat
            })
            &&& count_step(s, Step::SuiteBeforeEach { hook: h }) == (if h < hooks.len() && hooks[
                h as int
            ].kind is BeforeEach {
                opted_test_count(pgs, entries)
            } else {
                0
            })
            &&& count_step(s, Step::SuiteAfterEach { hook: h }) == (if h < hooks.len() && hooks[
                h as int
            ].kind is AfterEach {
                opted_test_count(pgs, entries)
            } else {
                0
            })
        }),
{
    let head = if any_opted(pgs, entries) {
        suite_before_steps(hooks)
    } else {
        Seq::<Step>::empty()
    };
    let tail = if any_opted(pgs, entries) {
        suite_after_steps(hooks)
    } else {
        Seq::<Step>::empty()
    };
    let mid = blocks(pgs, entries, hooks);
    assert(plan_steps(pgs, entries, hooks) == head + mid + tail);
    lemma_blocks_suite_counts(pgs, entries, hooks, h);
    lemma_suite_before_layer(hooks, h);
    lemma_suite_after_layer(hooks, h);
    let sb = Step::SuiteBefore { hook: h };
    let sa = Step::SuiteAfter { hook: h };
    let sbe = Step::SuiteBeforeEach { hook: h };
    let sae = Step::SuiteAfterEach { hook: h };
    lemma_count_concat(head, mid, sb);
    lemma_count_concat(head + mid, tail, sb);
    lemma_count_concat(head, mid, sa);
    lemma_count_concat(head + mid, tail, sa);
    lemma_count_concat(head, mid, sbe);
    lemma_count_concat(head + mid, tail, sbe);
    lemma_count_concat(head, mid, sae);
    lemma_count_concat(head + mid, tail, sae);
    lemma_count_zero(head, sa);
    lemma_count_zero(head, sbe);
    lemma_count_zero(head, sae);
    lemma_count_zero(tail, sb);
    lemma_count_zero(tail, sbe);
    lemma_count_zero(tail, sae);
    if !any_opted(pgs, entries) {
        lemma_count_zero(head, sb);
        lemma_count_zero(tail, sa);
    }
}

/// Group blocks distribute over concatenation of plans.
proof fn lemma_blocks_concat(
    a: Seq<PlanEntry>,
    b: Seq<PlanEntry>,
    entries: Seq<GroupEntry>,
    hooks: Seq<SuiteHook>,
)
    ensures
        blocks(a + b, entries, hooks) == blocks(a, entries, hooks) + blocks(b, entries, hooks),
    decreases b.len(),
{
    if b.len() == 0 {
        assert(a + b =~= a);
        assert(blocks(a, entries, hooks) + blocks(b, entries, hooks) =~= blocks(
            a,
            entries,
            hooks,
        ));
    } else {
        assert((a + b).drop_last() =~= a + b.drop_last());
        assert((a + b).last() == b.last());
        lemma_blocks_concat(a, b.drop_last(), entries, hooks);
        assert(blocks(a, entries, hooks) + blocks(b.drop_last(), entries, hooks) + group_block(
            b.last(),
            entries,
            hooks,
        ) =~= blocks(a, entries, hooks) + (blocks(b.drop_last(), entries, hooks) + group_block(
            b.last(),
            entries,
            hooks,
        )));
    }
}

/// The start of the group block of the group planned at position `k`
/// inside the whole unfolded run.
pub open spec fn segment_lo(
    pgs: Seq<PlanEntry>,
    entries: Seq<GroupEntry>,
    hooks: Seq<SuiteHook>,
    k: int,
) -> int {
    (if any_opted(pgs, entries) {
        suite_before_steps(hooks).len() as int
    } else {
        0
    }) + blocks(pgs.take(k), entries, hooks).len()
}

/// Every step of group `pgs[k].group` lies inside that group's own block,
/// and the whole run agrees with the block there.
proof fn lemma_step_location(
    pgs: Seq<PlanEntry>,
    entries: Seq<GroupEntry>,
    hooks: Seq<SuiteHook>,
    k: int,
    i: int,
)
    requires
        law_pre(pgs, entries, hooks),
        0 <= k < pgs.len(),
        0 <= i < plan_steps(pgs, entries, hooks).len(),
        step_of_group(plan_steps(pgs, entries, hooks)[i], pgs[k].group as usize),
    ensures
        segment_lo(pgs, entries, hooks, k) <= i < segment_lo(pgs, entries, hooks, k)
            + group_block(pgs[k], entries, hooks).len(),
        plan_steps(pgs, entries, hooks)[i] == group_block(pgs[k], entries, hooks)[i - segment_lo(
            pgs,
            entries,
            hooks,
            k,
        )],
{
    let gi = pgs[k].group as usize;
    let s = plan_steps(pgs, entries, hooks);
    let st0 = s[i];
    let head = if any_opted(pgs, entries) {
        suite_before_steps(hooks)
    } else {
        Seq::<Step>::empty()
    };
    let tail = if any_opted(pgs, entries) {
        suite_after_steps(hooks)
    } else {
        Seq::<Step>::empty()
    };
    let pre = blocks(pgs.take(k), entries, hooks);
    let gb = group_block(pgs[k], entries, hooks);
    let post = blocks(pgs.skip(k + 1), entries, hooks);
    assert(pgs =~= pgs.take(k) + seq![pgs[k]] + pgs.skip(k + 1));
    lemma_blocks_concat(pgs.take(k) + seq![pgs[k]], pgs.skip(k + 1), entries, hooks);
    lemma_blocks_concat(pgs.take(k), seq![pgs[k]], entries, hooks);
    assert(blocks(seq![pgs[k]], entries, hooks) == gb) by {
        assert(seq![pgs[k]].drop_last() =~= Seq::<PlanEntry>::empty());
        assert(seq![pgs[k]].last() == pgs[k]);
        assert(blocks(Seq::<PlanEntry>::empty(), entries, hooks) =~= Seq::<Step>::empty());
        assert(blocks(seq![pgs[k]], entries, hooks) == blocks(
            Seq::<PlanEntry>::empty(),
            entries,
            hooks,
        ) + group_block(pgs[k], entries, hooks));
        assert(Seq::<Step>::empty() + gb =~= gb);
    }
    assert(blocks(pgs, entries, hooks) == pre + gb + post);
    assert(s == head + (pre + gb + post) + tail);
    lemma_suite_before_layer(hooks, 0);
    lemma_suite_after_layer(hooks, 0);
    let lo = segment_lo(pgs, entries, hooks, k);
    assert(lo == head.len() + pre.len());
    // not in the suite layers
    if i < head.len() {
        assert(s[i] == head[i]);
        assert(false);
    }
    if i >= head.len() + pre.len() + gb.len() + post.len() {
        assert(s[i] == tail[i - head.len() - pre.len() - gb.len() - post.len()]);
        assert(false);
    }
    // not in the blocks of the other groups
    if head.len() <= i < head.len() + pre.len() {
        assert(s[i] == pre[i - head.len()]);
        lemma_count_pos(pre, st0, i - head.len());
        assert(forall|j: int|
            0 <= j < pgs.take(k).len() ==> (#[trigger] pgs.take(k)[j]).group != pgs[k].group);
        assert forall|j: int|
            0 <= j < pgs.take(k).len() implies (#[trigger] pgs.take(k)[j]).group as usize
            != gi by {
            assert(pgs.take(k)[j] == pgs[j]);
        }
        lemma_blocks_group_zero(pgs.take(k), entries, hooks, st0, gi);
        assert(false);
    }
    if head.len() + pre.len() + gb.len() <= i < head.len() + pre.len() + gb.len() + post.len() {
        assert(s[i] == post[i - head.len() - pre.len() - gb.len()]);
        lemma_count_pos(post, st0, i - head.len() - pre.len() - gb.len());
        assert forall|j: int|
            0 <= j < pgs.skip(k + 1).len() implies (#[trigger] pgs.skip(k + 1)[j]).group as usize
            != gi by {
            assert(pgs.skip(k + 1)[j] == pgs[j + k + 1]);
        }
        lemma_blocks_group_zero(pgs.skip(k + 1), entries, hooks, st0, gi);
        assert(false);
    }
    assert(s[i] == gb[i - lo]);
}

/// Setup precedes the work: the group's `before` step comes before every
/// test body of the group.
pub proof fn lemma_group_before_precedes_tests(
    pgs: Seq<PlanEntry>,
    entries: Seq<GroupEntry>,
    hooks: Seq<SuiteHook>,
    k: int,
    i: int,
    j: int,
)
    requires
        law_pre(pgs, entries, hooks),
        0 <= k < pgs.len(),
        0 <= i < plan_steps(pgs, entries, hooks).len(),
        0 <= j < plan_steps(pgs, entries, hooks).len(),
        plan_steps(pgs, entries, hooks)[i] == (Step::GroupBefore { group: pgs[k].group as usize }),
        is_run_of(plan_steps(pgs, entries, hooks)[j], pgs[k].group as usize),
    ensures
        i < j,
{
    let gi = pgs[k].group as usize;
    let g = entries[gi as int].group;
    assert(pgs[k].group as int == gi as int);
    lemma_step_location(pgs, entries, hooks, k, i);
    lemma_step_location(pgs, entries, hooks, k, j);
    let lo = segment_lo(pgs, entries, hooks, k);
    let gb = group_block(pgs[k], entries, hooks);
    let bpart = if g.before is Some {
        seq![Step::GroupBefore { group: gi }]
    } else {
        Seq::<Step>::empty()
    };
    let apart = if g.after is Some {
        seq![Step::GroupAfter { group: gi }]
    } else {
        Seq::<Step>::empty()
    };
    let mid = tests_steps(gi, pgs[k].tests@, g, hooks);
    assert(pgs[k].tests@.len() > 0);
    assert(gb == bpart + mid + apart);
    // the `before` step can only sit at the head of the block
    if i - lo >= bpart.len() {
        if i - lo < bpart.len() + mid.len() {
            assert(gb[i - lo] == mid[i - lo - bpart.len()]);
            lemma_count_pos(mid, Step::GroupBefore { group: gi }, i - lo - bpart.len());
            lemma_tests_steps_counts(gi, pgs[k].tests@, g, hooks, Step::GroupBefore { group: gi });
            assert(false);
        } else {
            assert(gb[i - lo] == apart[i - lo - bpart.len() - mid.len()]);
            assert(false);
        }
    }
    // a test body never sits at the head of the block
    if j - lo < bpart.len() {
        assert(gb[j - lo] == bpart[j - lo]);
        assert(false);
    }
}

/// Teardown follows the work: every test body of the group comes before
/// the group's `after` step — the countdown fires only once all of the
/// group's scheduled tests have completed, never earlier.
pub proof fn lemma_group_after_follows_tests(
    pgs: Seq<PlanEntry>,
    entries: Seq<GroupEntry>,
    hooks: Seq<SuiteHook>,
    k: int,
    i: int,
    j: int,
)
    requires
        law_pre(pgs, entries, hooks),
        0 <= k < pgs.len(),
        0 <= i < plan_steps(pgs, entries, hooks).len(),
        0 <= j < plan_steps(pgs, entries, hooks).len(),
        is_run_of(plan_steps(pgs, entries, hooks)[i], pgs[k].group as usize),
        plan_steps(pgs, entries, hooks)[j] == (Step::GroupAfter { group: pgs[k].group as usize }),
    ensures
        i < j,
{
    let gi = pgs[k].group as usize;
    let g = entries[gi as int].group;
    assert(pgs[k].group as int == gi as int);
    lemma_step_location(pgs, entries, hooks, k, i);
    lemma_step_location(pgs, entries, hooks, k, j);
    let lo = segment_lo(pgs, entries, hooks, k);
    let gb = group_block(pgs[k], entries, hooks);
    let bpart = if g.before is Some {
        seq![Step::GroupBefore { group: gi }]
    } else {
        Seq::<Step>::empty()
    };
    let apart = if g.after is Some {
        seq![Step::GroupAfter { group: gi }]
    } else {
        Seq::<Step>::empty()
    };
    let mid = tests_steps(gi, pgs[k].tests@, g, hooks);
    assert(pgs[k].tests@.len() > 0);
    assert(gb == bpart + mid + apart);
    // the `after` step can only sit at the tail of the block
    if j - lo < bpart.len() {
        assert(gb[j - lo] == bpart[j - lo]);
        assert(false);
    }
    if j - lo < bpart.len() + mid.len() {
        assert(gb[j - lo] == mid[j - lo - bpart.len()]);
        lemma_count_pos(mid, Step::GroupAfter { group: gi }, j - lo - bpart.len());
        lemma_tests_steps_counts(gi, pgs[k].tests@, g, hooks, Step::GroupAfter { group: gi });
        assert(false);
    }
    // a test body never sits at the tail of the block
    if i - lo >= bpart.len() + mid.len() {
        assert(gb[i - lo] == apart[i - lo - bpart.len() - mid.len()]);
        assert(false);
    }
}

/// A plan drawn by the scheduler satisfies everything the laws ask of a
/// plan: every group index is valid and appears at most once. The bounds
/// on the suite come from its vectors.
pub proof fn lemma_plan_satisfies_law_pre(
    p: ExecutionPlan,
    seed: u64,
    entries: Seq<GroupEntry>,
    hooks: Seq<SuiteHook>,
)
    requires
        plan_matches(p, seed, entries),
        entries.len() <= usize::MAX,
        hooks.len() <= usize::MAX,
    ensures
        law_pre(p.groups@, entries, hooks),
{
    broadcast use vstd::seq_lib::group_to_multiset_ensures;

    let gs = plan_group_seq(p);
    let ids = index_seq(entries.len());
    assert(ids.no_duplicates()) by {
        assert forall|i: int, j: int|
            0 <= i < ids.len() && 0 <= j < ids.len() && i != j implies ids[i] != ids[j] by {
            assert(ids[i] == i as u64 && ids[j] == j as u64);
        }
    }
    ids.lemma_multiset_has_no_duplicates();
    gs.lemma_multiset_has_no_duplicates_conv();
    assert forall|i: int, j: int| 0 <= i < j < p.groups@.len() implies p.groups@[i].group
        != p.groups@[j].group by {
        assert(gs[i] == p.groups@[i].group);
        assert(gs[j] == p.groups@[j].group);
    }
}

/// Setup directly guards each body: every test body of group `gi` is
/// immediately preceded by the group's `before_each` step.
pub open spec fn before_each_adjacent(s: Seq<Step>, gi: usize) -> bool {
    forall|j: int|
        0 <= j < s.len() && is_run_of(#[trigger] s[j], gi) ==> j >= 1 && s[j - 1]
            == (Step::GroupBeforeEach { group: gi })
}

/// Teardown directly follows each body: every test body of group `gi` is
/// immediately followed by the group's `after_each` step.
pub open spec fn after_each_adjacent(s: Seq<Step>, gi: usize) -> bool {
    forall|j: int|
        0 <= j < s.len() && is_run_of(#[trigger] s[j], gi) ==> j + 1 < s.len() && s[j + 1]
            == (Step::GroupAfterEach { group: gi })
}

/// A sequence without bodies of `gi` satisfies both adjacency properties
/// vacuously.
proof fn lemma_adjacent_of_runfree(s: Seq<Step>, gi: usize)
    requires
        count_runs_of(s, gi) == 0,
    ensures
        before_each_adjacent(s, gi),
        after_each_adjacent(s, gi),
{
    assert forall|j: int| 0 <= j < s.len() implies !is_run_of(#[trigger] s[j], gi) by {
        if is_run_of(s[j], gi) {
            lemma_count_runs_pos(s, gi, j);
        }
    }
}

/// Both adjacency properties survive concatenation: a body is never the
/// first step of the right part nor the last step of the left part, so
/// its neighbors stay within the same part.
proof fn lemma_adjacent_concat(a: Seq<Step>, b: Seq<Step>, gi: usize, each_before: bool, each_after: bool)
    requires
        each_before ==> before_each_adjacent(a, gi) && before_each_adjacent(b, gi),
        each_after ==> after_each_adjacent(a, gi) && after_each_adjacent(b, gi),
    ensures
        each_before ==> before_each_adjacent(a + b, gi),
        each_after ==> after_each_adjacent(a + b, gi),
{
    if each_before {
        assert forall|j: int|
            0 <= j < (a + b).len() && is_run_of(#[trigger] (a + b)[j], gi) implies j >= 1 && (a
            + b)[j - 1] == (Step::GroupBeforeEach { group: gi }) by {
            if j < a.len() {
                assert((a + b)[j] == a[j]);
                assert((a + b)[j - 1] == a[j - 1]);
            } else {
                assert((a + b)[j] == b[j - a.len()]);
                assert(j - a.len() >= 1);
                assert((a + b)[j - 1] == b[j - a.len() - 1]);
            }
        }
    }
    if each_after {
        assert forall|j: int|
            0 <= j < (a + b).len() && is_run_of(#[trigger] (a + b)[j], gi) implies j + 1 < (a
            + b).len() && (a + b)[j + 1] == (Step::GroupAfterEach { group: gi }) by {
            if j < a.len() {
                assert((a + b)[j] == a[j]);
                assert(j + 1 < a.len());
                assert((a + b)[j + 1] == a[j + 1]);
            } else {
                assert((a + b)[j] == b[j - a.len()]);
                assert((a + b)[j + 1] == b[j - a.len() + 1]);
            }
        }
    }
}

/// Inside one test block, the body sits right between the group's
/// per-test setup and teardown steps.
proof fn lemma_test_block_adjacent(gi: usize, ti: usize, g: TestGroup, hooks: Seq<SuiteHook>)
    requires
        hooks.len() <= usize::MAX,
    ensures
        g.before_each is Some ==> before_each_adjacent(test_block(gi, ti, g, hooks), gi),
        g.after_each is Some ==> after_each_adjacent(test_block(gi, ti, g, hooks), gi),
{
    let (sbe, gbe, body, gae, sae) = tb_parts(gi, ti, g, hooks);
    let tb = test_block(gi, ti, g, hooks);
    assert(tb == sbe + gbe + body + gae + sae);
    lemma_suite_before_each_layer(hooks, 0);
    lemma_suite_after_each_layer(hooks, 0);
    // the only body in the block is at the position right after the
    // per-test setup steps
    assert forall|j: int| 0 <= j < tb.len() && is_run_of(#[trigger] tb[j], gi) implies j
        == sbe.len() + gbe.len() by {
        if j < sbe.len() {
            assert(tb[j] == sbe[j]);
        } else if j < sbe.len() + gbe.len() {
            assert(tb[j] == gbe[j - sbe.len()]);
        } else if j == sbe.len() + gbe.len() {
        } else if j < sbe.len() + gbe.len() + 1 + gae.len() {
            assert(tb[j] == gae[j - sbe.len() - gbe.len() - 1]);
        } else {
            assert(tb[j] == sae[j - sbe.len() - gbe.len() - 1 - gae.len()]);
        }
    }
    if g.before_each is Some {
        assert forall|j: int|
            0 <= j < tb.len() && is_run_of(#[trigger] tb[j], gi) implies j >= 1 && tb[j - 1]
            == (Step::GroupBeforeEach { group: gi }) by {
            assert(j == sbe.len() + gbe.len());
            assert(tb[j - 1] == gbe[0]);
        }
    }
    if g.after_each is Some {
        assert forall|j: int|
            0 <= j < tb.len() && is_run_of(#[trigger] tb[j], gi) implies j + 1 < tb.len() && tb[j
            + 1] == (Step::GroupAfterEach { group: gi }) by {
            assert(j == sbe.len() + gbe.len());
            assert(tb[j + 1] == gae[0]);
        }
    }
}

/// Adjacency over all test blocks of one group.
proof fn lemma_tests_steps_adjacent(gi: usize, tids: Seq<u64>, g: TestGroup, hooks: Seq<SuiteHook>)
    requires
        hooks.len() <= usize::MAX,
    ensures
        g.before_each is Some ==> before_each_adjacent(tests_steps(gi, tids, g, hooks), gi),
        g.after_each is Some ==> after_each_adjacent(tests_steps(gi, tids, g, hooks), gi),
    decreases tids.len(),
{
    let ts = tests_steps(gi, tids, g, hooks);
    if tids.len() == 0 {
        lemma_count_runs_zero(ts, gi);
        lemma_adjacent_of_runfree(ts, gi);
    } else {
        lemma_tests_steps_adjacent(gi, tids.drop_last(), g, hooks);
        lemma_test_block_adjacent(gi, tids.last() as usize, g, hooks);
        lemma_adjacent_concat(
            tests_steps(gi, tids.drop_last(), g, hooks),
            test_block(gi, tids.last() as usize, g, hooks),
            gi,
            g.before_each is Some,
            g.after_each is Some,
        );
    }
}

/// Adjacency over one group block: the surrounding `before`/`after`
/// steps hold no body, so nothing changes at the seams.
proof fn lemma_group_block_adjacent(pe: PlanEntry, entries: Seq<GroupEntry>, hooks: Seq<SuiteHook>)
    requires
        hooks.len() <= usize::MAX,
        entries.len() <= usize::MAX,
        pe.group < entries.len(),
    ensures
        entries[pe.group as int].group.before_each is Some ==> before_each_adjacent(
            group_block(pe, entries, hooks),
            pe.group as usize,
        ),
        entries[pe.group as int].group.after_each is Some ==> after_each_adjacent(
            group_block(pe, entries, hooks),
            pe.group as usize,
        ),
{
    let g = entries[pe.group as int].group;
    let gi = pe.group as usize;
    let gb = group_block(pe, entries, hooks);
    if pe.tests@.len() == 0 {
        lemma_count_runs_zero(gb, gi);
        lemma_adjacent_of_runfree(gb, gi);
    } else {
        let bpart = if g.before is Some {
            seq![Step::GroupBefore { group: gi }]
        } else {
            Seq::<Step>::empty()
        };
        let apart = if g.after is Some {
            seq![Step::GroupAfter { group: gi }]
        } else {
            Seq::<Step>::empty()
        };
        let mid = tests_steps(gi, pe.tests@, g, hooks);
        assert(gb == bpart + mid + apart);
        lemma_tests_steps_adjacent(gi, pe.tests@, g, hooks);
        lemma_count_runs_zero(bpart, gi);
        lemma_count_runs_zero(apart, gi);
        lemma_adjacent_of_runfree(bpart, gi);
        lemma_adjacent_of_runfree(apart, gi);
        lemma_adjacent_concat(bpart, mid, gi, g.before_each is Some, g.after_each is Some);
        lemma_adjacent_concat(
            bpart + mid,
            apart,
            gi,
            g.before_each is Some,
            g.after_each is Some,
        );
    }
}

/// Adjacency over all group blocks of the plan.
proof fn lemma_blocks_adjacent(
    pgs: Seq<PlanEntry>,
    entries: Seq<GroupEntry>,
    hooks: Seq<SuiteHook>,
    gi: usize,
)
    requires
        hooks.len() <= usize::MAX,
        entries.len() <= usize::MAX,
        gi < entries.len(),
        forall|j: int| 0 <= j < pgs.len() ==> (#[trigger] pgs[j]).group < entries.len(),
    ensures
        entries[gi as int].group.before_each is Some ==> before_each_adjacent(
            blocks(pgs, entries, hooks),
            gi,
        ),
        entries[gi as int].group.after_each is Some ==> after_each_adjacent(
            blocks(pgs, entries, hooks),
            gi,
        ),
    decreases pgs.len(),
{
    let bs = blocks(pgs, entries, hooks);
    let g = entries[gi as int].group;
    if pgs.len() == 0 {
        lemma_count_runs_zero(bs, gi);
        lemma_adjacent_of_runfree(bs, gi);
    } else {
        let pre = blocks(pgs.drop_last(), entries, hooks);
        let gb = group_block(pgs.last(), entries, hooks);
        assert(bs == pre + gb);
        lemma_blocks_adjacent(pgs.drop_last(), entries, hooks, gi);
        if pgs.last().group as usize == gi {
            assert(pgs.last().group as int == gi as int);
            lemma_group_block_adjacent(pgs.last(), entries, hooks);
        } else {
            // any step value serves here: only the body-count clauses of
            // the block-count lemma are needed
            lemma_group_block_counts(pgs.last(), entries, hooks, Step::GroupBefore { group: 0 });
            lemma_adjacent_of_runfree(gb, gi);
        }
        lemma_adjacent_concat(pre, gb, gi, g.before_each is Some, g.after_each is Some);
    }
}

/// Per-test setup guards every body, and per-test teardown follows every
/// body, whatever the body's outcome: in the whole unfolded run, each
/// test body of a group with a declared `before_each` is immediately
/// preceded by that `before_each` step — so each test starts from the
/// value its own setup produced — and with a declared `after_each` it is
/// immediately followed by that `after_each` step, failures included.
pub proof fn lemma_per_test_hooks_adjacent(
    pgs: Seq<PlanEntry>,
    entries: Seq<GroupEntry>,
    hooks: Seq<SuiteHook>,
    gi: usize,
)
    requires
        hooks.len() <= usize::MAX,
        entries.len() <= usize::MAX,
        gi < entries.len(),
        forall|j: int| 0 <= j < pgs.len() ==> (#[trigger] pgs[j]).group < entries.len(),
    ensures
        entries[gi as int].group.before_each is Some ==> before_each_adjacent(
            plan_steps(pgs, entries, hooks),
            gi,
        ),
        entries[gi as int].group.after_each is Some ==> after_each_adjacent(
            plan_steps(pgs, entries, hooks),
            gi,
        ),
{
    let head = if any_opted(pgs, entries) {
        suite_before_steps(hooks)
    } else {
        Seq::<Step>::empty()
    };
    let tail = if any_opted(pgs, entries) {
        suite_after_steps(hooks)
    } else {
        Seq::<Step>::empty()
    };
    let mid = blocks(pgs, entries, hooks);
    let g = entries[gi as int].group;
    assert(plan_steps(pgs, entries, hooks) == head + mid + tail);
    lemma_suite_before_layer(hooks, 0);
    lemma_suite_after_layer(hooks, 0);
    lemma_count_runs_zero(head, gi);
    lemma_count_runs_zero(tail, gi);
    lemma_adjacent_of_runfree(head, gi);
    lemma_adjacent_of_runfree(tail, gi);
    lemma_blocks_adjacent(pgs, entries, hooks, gi);
    lemma_adjacent_concat(head, mid, gi, g.before_each is Some, g.after_each is Some);
    lemma_adjacent_concat(head + mid, tail, gi, g.before_each is Some, g.after_each is Some);
}

/// The suite layer wraps the whole run: every suite `before` step comes
/// before every other kind of step, and every suite `after` step comes
/// after every other kind of step — so the suite `before` precedes the
/// first group `before` among the opted-in groups, and the suite `after`
/// follows the last group `after`.
pub proof fn lemma_suite_layer_wraps(
    pgs: Seq<PlanEntry>,
    entries: Seq<GroupEntry>,
    hooks: Seq<SuiteHook>,
    i: int,
    j: int,
)
    requires
        hooks.len() <= usize::MAX,
        entries.len() <= usize::MAX,
        forall|w: int| 0 <= w < pgs.len() ==> (#[trigger] pgs[w]).group < entries.len(),
        0 <= i < plan_steps(pgs, entries, hooks).len(),
        0 <= j < plan_steps(pgs, entries, hooks).len(),
    ensures
        plan_steps(pgs, entries, hooks)[i] matches Step::SuiteBefore { .. } && !(plan_steps(
            pgs,
            entries,
            hooks,
        )[j] matches Step::SuiteBefore { .. }) ==> i < j,
        plan_steps(pgs, entries, hooks)[i] matches Step::SuiteAfter { .. } && !(plan_steps(
            pgs,
            entries,
            hooks,
        )[j] matches Step::SuiteAfter { .. }) ==> j < i,
{
    let s = plan_steps(pgs, entries, hooks);
    let head = if any_opted(pgs, entries) {
        suite_before_steps(hooks)
    } else {
        Seq::<Step>::empty()
    };
    let tail = if any_opted(pgs, entries) {
        suite_after_steps(hooks)
    } else {
        Seq::<Step>::empty()
    };
    let mid = blocks(pgs, entries, hooks);
    assert(s == head + mid + tail);
    lemma_suite_before_layer(hooks, 0);
    lemma_suite_after_layer(hooks, 0);
    // the head holds exactly the suite `before` steps of the run, and the
    // tail exactly the suite `after` steps
    assert forall|w: int|
        0 <= w < s.len() && (#[trigger] s[w] matches Step::SuiteBefore { .. }) implies w
        < head.len() by {
        if head.len() <= w < head.len() + mid.len() {
            assert(s[w] == mid[w - head.len()]);
            match s[w] {
                Step::SuiteBefore { hook } => {
                    lemma_count_pos(mid, Step::SuiteBefore { hook }, w - head.len());
                    lemma_blocks_suite_counts(pgs, entries, hooks, hook);
                },
                _ => {},
            }
        } else if w >= head.len() + mid.len() {
            assert(s[w] == tail[w - head.len() - mid.len()]);
        }
    }
    assert forall|w: int|
        0 <= w < s.len() && (#[trigger] s[w] matches Step::SuiteAfter { .. }) implies w
        >= head.len() + mid.len() by {
        if w < head.len() {
            assert(s[w] == head[w]);
        } else if w < head.len() + mid.len() {
            assert(s[w] == mid[w - head.len()]);
            match s[w] {
                Step::SuiteAfter { hook } => {
                    lemma_count_pos(mid, Step::SuiteAfter { hook }, w - head.len());
                    lemma_blocks_suite_counts(pgs, entries, hooks, hook);
                },
                _ => {},
            }
        }
    }
    if s[i] matches Step::SuiteBefore { .. } && !(s[j] matches Step::SuiteBefore { .. }) {
        assert(s[j] == head[j] || j >= head.len());
    }
    if s[i] matches Step::SuiteAfter { .. } && !(s[j] matches Step::SuiteAfter { .. }) {
        assert(j < head.len() + mid.len() || s[j] == tail[j - head.len() - mid.len()]);
    }
}

/// The number of test bodies the plan schedules, over all groups.
pub open spec fn total_planned_tests(pgs: Seq<PlanEntry>) -> nat
    decreases pgs.len(),
{
    if pgs.len() == 0 {
        0
    } else {
        total_planned_tests(pgs.drop_last()) + pgs.last().tests@.len()
    }
}

/// Body counts add over concatenation.
proof fn lemma_count_run_tests_concat(a: Seq<Step>, b: Seq<Step>)
    ensures
        count_run_tests(a + b) == count_run_tests(a) + count_run_tests(b),
{
    broadcast use vstd::seq_lib::group_seq_lib_default;

    assert((a + b).filter(|st: Step| st is RunTest) == a.filter(|st: Step| st is RunTest)
        + b.filter(|st: Step| st is RunTest));
}

/// A sequence without bodies counts zero.
proof fn lemma_count_run_tests_zero(s: Seq<Step>)
    requires
        forall|i: int| 0 <= i < s.len() ==> !(#[trigger] s[i] is RunTest),
    ensures
        count_run_tests(s) == 0,
    decreases s.len(),
{
    reveal(Seq::filter);
    if s.len() > 0 {
        lemma_count_run_tests_zero(s.drop_last());
    }
}

/// One test block holds exactly one body.
proof fn lemma_count_run_tests_tb(gi: usize, ti: usize, g: TestGroup, hooks: Seq<SuiteHook>)
    requires
        hooks.len() <= usize::MAX,
    ensures
        count_run_tests(test_block(gi, ti, g, hooks)) == 1,
{
    let (sbe, gbe, body, gae, sae) = tb_parts(gi, ti, g, hooks);
    assert(test_block(gi, ti, g, hooks) == sbe + gbe + body + gae + sae);
    lemma_suite_before_each_layer(hooks, 0);
    lemma_suite_after_each_layer(hooks, 0);
    lemma_count_run_tests_concat(sbe, gbe);
    lemma_count_run_tests_concat(sbe + gbe, body);
    lemma_count_run_tests_concat(sbe + gbe + body, gae);
    lemma_count_run_tests_concat(sbe + gbe + body + gae, sae);
    lemma_count_run_tests_zero(sbe);
    lemma_count_run_tests_zero(gbe);
    lemma_count_run_tests_zero(gae);
    lemma_count_run_tests_zero(sae);
    assert(count_run_tests(body) == 1) by {
        reveal(Seq::filter);
        assert(body.drop_last() =~= Seq::<Step>::empty());
        lemma_count_run_tests_zero(Seq::<Step>::empty());
    }
}

/// One group block holds one body per scheduled test.
proof fn lemma_count_run_tests_gb(pe: PlanEntry, entries: Seq<GroupEntry>, hooks: Seq<SuiteHook>)
    requires
        hooks.len() <= usize::MAX,
        pe.group < entries.len(),
    ensures
        count_run_tests(group_block(pe, entries, hooks)) == pe.tests@.len(),
{
    let g = entries[pe.group as int].group;
    let gi = pe.group as usize;
    if pe.tests@.len() == 0 {
        lemma_count_run_tests_zero(group_block(pe, entries, hooks));
    } else {
        let bpart = if g.before is Some {
            seq![Step::GroupBefore { group: gi }]
        } else {
            Seq::<Step>::empty()
        };
        let apart = if g.after is Some {
            seq![Step::GroupAfter { group: gi }]
        } else {
            Seq::<Step>::empty()
        };
        assert(group_block(pe, entries, hooks) == bpart + tests_steps(gi, pe.tests@, g, hooks)
            + apart);
        lemma_count_run_tests_concat(bpart, tests_steps(gi, pe.tests@, g, hooks));
        lemma_count_run_tests_concat(bpart + tests_steps(gi, pe.tests@, g, hooks), apart);
        lemma_count_run_tests_zero(bpart);
        lemma_count_run_tests_zero(apart);
        lemma_count_run_tests_ts(gi, pe.tests@, g, hooks);
    }
}

/// All test blocks of a group hold one body per scheduled test.
proof fn lemma_count_run_tests_ts(gi: usize, tids: Seq<u64>, g: TestGroup, hooks: Seq<SuiteHook>)
    requires
        hooks.len() <= usize::MAX,
    ensures
        count_run_tests(tests_steps(gi, tids, g, hooks)) == tids.len(),
    decreases tids.len(),
{
    if tids.len() == 0 {
        lemma_count_run_tests_zero(tests_steps(gi, tids, g, hooks));
    } else {
        lemma_count_run_tests_ts(gi, tids.drop_last(), g, hooks);
        lemma_count_run_tests_tb(gi, tids.last() as usize, g, hooks);
        lemma_count_run_tests_concat(
            tests_steps(gi, tids.drop_last(), g, hooks),
            test_block(gi, tids.last() as usize, g, hooks),
        );
    }
}

/// A completed run records exactly one result per scheduled test: the
/// unfolded step sequence holds exactly as many test-body steps as the
/// plan schedules, so the engine — which appends exactly one result per
/// performed body, whatever its outcome — never drops and never
/// duplicates a test.
pub proof fn lemma_one_result_per_scheduled_test(
    pgs: Seq<PlanEntry>,
    entries: Seq<GroupEntry>,
    hooks: Seq<SuiteHook>,
)
    requires
        hooks.len() <= usize::MAX,
        forall|j: int| 0 <= j < pgs.len() ==> (#[trigger] pgs[j]).group < entries.len(),
    ensures
        count_run_tests(plan_steps(pgs, entries, hooks)) == total_planned_tests(pgs),
{
    let head = if any_opted(pgs, entries) {
        suite_before_steps(hooks)
    } else {
        Seq::<Step>::empty()
    };
    let tail = if any_opted(pgs, entries) {
        suite_after_steps(hooks)
    } else {
        Seq::<Step>::empty()
    };
    let mid = blocks(pgs, entries, hooks);
    assert(plan_steps(pgs, entries, hooks) == head + mid + tail);
    lemma_suite_before_layer(hooks, 0);
    lemma_suite_after_layer(hooks, 0);
    lemma_count_run_tests_concat(head, mid);
    lemma_count_run_tests_concat(head + mid, tail);
    lemma_count_run_tests_zero(head);
    lemma_count_run_tests_zero(tail);
    lemma_count_run_tests_blocks(pgs, entries, hooks);
}

/// The group blocks hold one body per scheduled test, over all groups.
proof fn lemma_count_run_tests_blocks(
    pgs: Seq<PlanEntry>,
    entries: Seq<GroupEntry>,
    hooks: Seq<SuiteHook>,
)
    requires
        hooks.len() <= usize::MAX,
        forall|j: int| 0 <= j < pgs.len() ==> (#[trigger] pgs[j]).group < entries.len(),
    ensures
        count_run_tests(blocks(pgs, entries, hooks)) == total_planned_tests(pgs),
    decreases pgs.len(),
{
    if pgs.len() == 0 {
        lemma_count_run_tests_zero(blocks(pgs, entries, hooks));
    } else {
        lemma_count_run_tests_blocks(pgs.drop_last(), entries, hooks);
        lemma_count_run_tests_gb(pgs.last(), entries, hooks);
        lemma_count_run_tests_concat(
            blocks(pgs.drop_last(), entries, hooks),
            group_block(pgs.last(), entries, hooks),
        );
    }
}

} // verus!
