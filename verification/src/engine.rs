//! The execution engine: walks the unfolded step sequence of a run,
//! telling the driving harness which hook or test body to invoke next, and
//! aggregates one result per executed test — exactly one, whatever the
//! outcome — into the final suite result.
//!
//! The engine decides; the harness acts. Invoking a test body or a hook is
//! the harness's job: it performs the current step and reports back, with
//! the observed outcome and duration when the step was a test body.

use vstd::prelude::*;
use crate::registry::{Registry, Suite};
use crate::sched::{plan, plan_matches, ExecutionPlan};
use crate::steps::{build_steps, lemma_plan_steps_bounded, plan_in_bounds, plan_steps,
    steps_seq_in_bounds, Step};
use crate::types::{clone_string, ConfigError, SuiteResult, TestCase, TestOutcome, TestResult};

verus! {

/// How many of the steps are test bodies.
pub open spec fn count_run_tests(s: Seq<Step>) -> nat {
    s.filter(|st: Step| st is RunTest).len()
}

/// The engine for one run: the frozen suite, the plan drawn for it, the
/// unfolded step sequence, the position reached, and the results recorded
/// so far.
pub struct Engine {
    pub suite: Suite,
    pub plan: ExecutionPlan,
    pub steps: Vec<Step>,
    pub pos: usize,
    pub results: Vec<TestResult>,
}

impl Engine {
    /// Basic soundness of the engine state: the position is within the
    /// step sequence, every index a step carries is valid for the suite,
    /// and exactly one result has been recorded per completed test body.
    pub open spec fn wf(self) -> bool {
        &&& self.pos <= self.steps@.len()
        &&& steps_seq_in_bounds(self.steps@, self.suite.entries@, self.suite.suite_hooks@)
        &&& self.results@.len() == count_run_tests(self.steps@.take(self.pos as int))
    }

    /// Set up a run: draw the plan for the suite under the seed and unfold
    /// it into the step sequence.
    pub fn new(suite: Suite, seed: u64) -> (r: Engine)
        ensures
            r.wf(),
            r.suite == suite,
            r.pos == 0,
            r.results@ =~= Seq::<TestResult>::empty(),
            plan_matches(r.plan, seed, suite.entries@),
            r.steps@ == plan_steps(r.plan.groups@, suite.entries@, suite.suite_hooks@),
    {
        let p = plan(seed, &suite);
        // reading the length pins the entry count within machine bounds
        let _entry_count = suite.entries.len();
        proof {
            broadcast use vstd::std_specs::vec::group_vec_axioms;

            assert forall|g: int| 0 <= g < suite.entries@.len() implies (#[trigger] suite.entries@[
                g
            ]).tests@.len() <= usize::MAX by {
                assert(vstd::std_specs::vec::spec_vec_len(&suite.entries@[g].tests)
                    == suite.entries@[g].tests@.len());
            }
            assert(plan_in_bounds(p.groups@, suite.entries@));
        }
        let steps = build_steps(&p, &suite);
        proof {
            lemma_plan_steps_bounded(p.groups@, suite.entries@, suite.suite_hooks@);
            assert(steps@.take(0) =~= Seq::<Step>::empty());
            reveal(Seq::filter);
        }
        Engine { suite, plan: p, steps, pos: 0, results: Vec::new() }
    }

    /// Close discovery and set up a run in one stroke: freeze the registry
    /// (rejecting configuration errors before anything executes) and plan
    /// with the given seed.
    pub fn from_registry(reg: Registry, seed: u64) -> (r: Result<Engine, ConfigError>)
        ensures
            r is Ok <==> crate::registry::registry_ok(reg.groups@, reg.tests@),
            r matches Ok(e) ==> {
                &&& e.wf()
                &&& e.pos == 0
                &&& e.results@ =~= Seq::<TestResult>::empty()
                &&& crate::registry::suite_wf(e.suite)
                &&& plan_matches(e.plan, seed, e.suite.entries@)
                &&& e.steps@ == plan_steps(e.plan.groups@, e.suite.entries@, e.suite.suite_hooks@)
            },
    {
        match reg.compile() {
            Ok(suite) => Ok(Engine::new(suite, seed)),
            Err(e) => Err(e),
        }
    }

    /// The step the harness should perform next, if any.
    pub fn current_step(&self) -> (r: Option<Step>)
        ensures
            r == (if self.pos < self.steps@.len() {
                Some(self.steps@[self.pos as int])
            } else {
                None::<Step>
            }),
    {
        if self.pos < self.steps.len() {
            Some(self.steps[self.pos])
        } else {
            None
        }
    }

    /// Record that the harness performed the current hook step. Hooks do
    /// not produce results; the engine just moves on.
    pub fn advance_hook(&mut self)
        requires
            old(self).wf(),
            old(self).pos < old(self).steps@.len(),
            !(old(self).steps@[old(self).pos as int] is RunTest),
        ensures
            final(self).wf(),
            final(self).pos == old(self).pos + 1,
            final(self).steps == old(self).steps,
            final(self).suite == old(self).suite,
            final(self).plan == old(self).plan,
            final(self).results == old(self).results,
    {
        proof {
            reveal(Seq::filter);
            let s = self.steps@;
            let p = self.pos as int;
            assert(s.take(p + 1).drop_last() =~= s.take(p));
            assert(s.take(p + 1).last() == s[p]);
        }
        // reading the length shows the advanced position stays in range
        let _step_count = self.steps.len();
        self.pos = self.pos + 1;
    }

    /// Record that the harness ran the current test body, with the outcome
    /// it observed and the measured duration. Exactly one result is
    /// appended, carrying the test's identity and source location — a
    /// failure is never dropped and never recorded twice.
    pub fn advance_test(&mut self, outcome: TestOutcome, duration_micros: u64)
        requires
            old(self).wf(),
            old(self).pos < old(self).steps@.len(),
            old(self).steps@[old(self).pos as int] is RunTest,
        ensures
            final(self).wf(),
            final(self).pos == old(self).pos + 1,
            final(self).steps == old(self).steps,
            final(self).suite == old(self).suite,
            final(self).plan == old(self).plan,
            final(self).results@.len() == old(self).results@.len() + 1,
            final(self).results@.drop_last() == old(self).results@,
            ({
                let rec = final(self).results@.last();
                let tc = test_at(old(self).suite, old(self).steps@[old(self).pos as int]);
                &&& rec.name@ == tc.name@
                &&& rec.module@ == tc.module@
                &&& rec.file@ == tc.file@
                &&& rec.line == tc.line
                &&& rec.outcome == outcome
                &&& rec.duration_micros == duration_micros
            }),
    {
        proof {
            reveal(Seq::filter);
            let s = self.steps@;
            let p = self.pos as int;
            assert(s.take(p + 1).drop_last() =~= s.take(p));
            assert(s.take(p + 1).last() == s[p]);
        }
        let _step_count = self.steps.len();
        let step = self.steps[self.pos];
        match step {
            Step::RunTest { group, test } => {
                let tc = &self.suite.entries[group].tests[test];
                let result = TestResult {
                    name: clone_string(&tc.name),
                    module: clone_string(&tc.module),
                    file: clone_string(&tc.file),
                    line: tc.line,
                    outcome,
                    duration_micros,
                };
                self.results.push(result);
                self.pos = self.pos + 1;
                proof {
                    assert(self.results@.drop_last() =~= old(self).results@);
                }
            },
            _ => {
                proof {
                    assert(false);
                }
            },
        }
    }

    /// Whether the run is complete: every step has been performed.
    pub fn finished(&self) -> (r: bool)
        ensures
            r == (self.pos == self.steps@.len()),
    {
        self.pos == self.steps.len()
    }

    /// The seed the plan was drawn with.
    pub fn seed(&self) -> (r: u64)
        ensures
            r == self.plan.seed,
    {
        self.plan.seed
    }

    /// Close the run: wrap the recorded results, the seed and the total
    /// elapsed time into the final suite result. One result stands for each
    /// executed test body.
    pub fn finish(self, total_micros: u64) -> (r: SuiteResult)
        requires
            self.wf(),
            self.pos == self.steps@.len(),
        ensures
            r.results@ == self.results@,
            r.seed == self.plan.seed,
            r.total_micros == total_micros,
            r.results@.len() == count_run_tests(self.steps@),
    {
        proof {
            assert(self.steps@.take(self.steps@.len() as int) =~= self.steps@);
        }
        SuiteResult { results: self.results, seed: self.plan.seed, total_micros }
    }

    /// The test case a test-body step refers to.
    pub fn test_case(&self, group: usize, test: usize) -> (r: &TestCase)
        requires
            group < self.suite.entries@.len(),
            test < self.suite.entries@[group as int].tests@.len(),
        ensures
            *r == self.suite.entries@[group as int].tests@[test as int],
    {
        &self.suite.entries[group].tests[test]
    }

    /// The name of a group entry.
    pub fn group_name(&self, group: usize) -> (r: &String)
        requires
            group < self.suite.entries@.len(),
        ensures
            r@ == self.suite.entries@[group as int].group.name@,
    {
        &self.suite.entries[group].group.name
    }

    /// The group descriptor of an entry.
    pub fn group(&self, group: usize) -> (r: &crate::types::TestGroup)
        requires
            group < self.suite.entries@.len(),
        ensures
            *r == self.suite.entries@[group as int].group,
    {
        &self.suite.entries[group].group
    }

    /// The suite-level hook a suite step refers to.
    pub fn suite_hook(&self, hook: usize) -> (r: crate::types::SuiteHook)
        requires
            hook < self.suite.suite_hooks@.len(),
        ensures
            r == self.suite.suite_hooks@[hook as int],
    {
        self.suite.suite_hooks[hook]
    }
}

/// Walk a whole run without invoking any hook or test body, recording
/// every scheduled test as passed with no elapsed time: a dry run that
/// shows which tests the seed would schedule, one result per test.
pub fn dry_run(suite: Suite, seed: u64) -> (r: SuiteResult)
    ensures
        r.seed == seed,
        r.total_micros == 0,
        forall|i: int| 0 <= i < r.results@.len() ==> r.results@[i].outcome is Passed,
        exists|p: ExecutionPlan|
            #[trigger] plan_matches(p, seed, suite.entries@) && r.results@.len()
                == crate::laws::total_planned_tests(p.groups@),
{
    let ghost entries = suite.entries@;
    let ghost hooks = suite.suite_hooks@;
    // reading the lengths pins the vectors within machine bounds
    let _hook_count = suite.suite_hooks.len();
    let _entry_count = suite.entries.len();
    let mut eng = Engine::new(suite, seed);
    let ghost chosen_plan = eng.plan;
    proof {
        crate::laws::lemma_one_result_per_scheduled_test(eng.plan.groups@, entries, hooks);
    }
    loop
        invariant_except_break
            eng.wf(),
            eng.plan == chosen_plan,
            eng.plan.seed == seed,
            count_run_tests(eng.steps@) == crate::laws::total_planned_tests(eng.plan.groups@),
            forall|i: int| 0 <= i < eng.results@.len() ==> eng.results@[i].outcome is Passed,
        ensures
            eng.wf(),
            eng.plan == chosen_plan,
            eng.plan.seed == seed,
            eng.pos == eng.steps@.len(),
            count_run_tests(eng.steps@) == crate::laws::total_planned_tests(eng.plan.groups@),
            forall|i: int| 0 <= i < eng.results@.len() ==> eng.results@[i].outcome is Passed,
        decreases eng.steps@.len() - eng.pos,
    {
        let step = match eng.current_step() {
            Some(s) => s,
            None => { break; },
        };
        match step {
            Step::RunTest { .. } => {
                let ghost before = eng.results@;
                eng.advance_test(TestOutcome::Passed, 0);
                proof {
                    assert forall|i: int| 0 <= i < eng.results@.len() implies eng.results@[
                        i
                    ].outcome is Passed by {
                        if i < before.len() {
                            assert(eng.results@[i] == before[i]);
                        }
                    }
                }
            },
            _ => {
                eng.advance_hook();
            },
        }
    }
    proof {
        assert(eng.steps@.take(eng.steps@.len() as int) =~= eng.steps@);
    }
    eng.finish(0)
}

/// The test case a `RunTest` step denotes.
pub open spec fn test_at(suite: Suite, st: Step) -> TestCase {
    suite.entries@[st->RunTest_group as int].tests@[st->RunTest_test as int]
}

} // verus!
