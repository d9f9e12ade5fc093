//! Core data model: test cases, groups, hook descriptors, outcomes and the
//! aggregated suite result.

use vstd::prelude::*;

verus! {

/// A discovered test case. Identity is the pair (`module`, `name`); the
/// source location is carried along for failure reporting. The runnable body
/// itself stays with the harness that drives the engine and is addressed by
/// the case's position in the registry.
#[derive(Clone)]
pub struct TestCase {
    /// Test name, unique within its group.
    pub name: String,
    /// Name of the group this case belongs to.
    pub module: String,
    /// Source file for failure reporting.
    pub file: String,
    /// Source line for failure reporting.
    pub line: u32,
    /// Declared consumption contract: the body wants a borrow of the group's
    /// shared context.
    pub needs_shared: bool,
    /// Declared consumption contract: the body consumes the per-test owned
    /// context.
    pub needs_owned: bool,
}

/// Declared wiring of one hook: which context values it produces and which
/// it consumes. Resolved once at discovery time, never inferred per test.
#[derive(Clone, Copy, PartialEq, Eq, Structural)]
pub struct HookSpec {
    /// Identifier under which the driving harness finds the hook body.
    pub hook_id: usize,
    /// The hook produces the group's shared context value (only meaningful
    /// for `before`).
    pub produces_shared: bool,
    /// The hook consumes a borrow of the shared context value.
    pub needs_shared: bool,
    /// The hook produces the per-test owned context value (only meaningful
    /// for `before_each`).
    pub produces_owned: bool,
    /// The hook consumes the per-test owned context value by value (only
    /// meaningful for `after_each`).
    pub needs_owned: bool,
}

/// A group's hook set: up to one hook of each kind. A group with no hooks is
/// valid and behaves as a no-op group.
#[derive(Clone)]
pub struct TestGroup {
    /// Group name, unique across the registry.
    pub name: String,
    /// Group-scoped setup, run once per group.
    pub before: Option<HookSpec>,
    /// Group-scoped teardown, run once per group after its last test.
    pub after: Option<HookSpec>,
    /// Per-test setup.
    pub before_each: Option<HookSpec>,
    /// Per-test teardown; runs even when the test body fails.
    pub after_each: Option<HookSpec>,
    /// The group opts into the suite-level hook layer.
    pub suite: bool,
}

/// The kind of a suite-level hook.
#[derive(Debug, Clone, Copy, PartialEq, Eq, Structural)]
pub enum SuiteHookKind {
    Before,
    After,
    BeforeEach,
    AfterEach,
}

/// A hook registered independently of any group, applied to groups that opt
/// in. Hooks of the same kind compose in registration order (`Before`,
/// `BeforeEach`) or in reverse registration order (`After`, `AfterEach`).
#[derive(Clone, Copy, PartialEq, Eq, Structural)]
pub struct SuiteHook {
    pub kind: SuiteHookKind,
    /// Identifier under which the driving harness finds the hook body.
    pub hook_id: usize,
}

/// Clone a string, keeping its characters.
pub fn clone_string(s: &String) -> (r: String)
    ensures
        r@ == s@,
{
    s.clone()
}

/// A discovery-time configuration error. Fatal to the whole run and
/// reported before any test executes.
#[derive(Debug)]
pub enum ConfigError {
    /// Two groups were declared under the carried name.
    DuplicateGroup(String),
    /// Two tests in the carried group (first field) share the carried test
    /// name (second field).
    DuplicateTest(String, String),
    /// A hook or test of the carried group asks for a borrow of the shared
    /// context, but the group has no `before` that produces one.
    MissingSharedContext(String),
    /// A hook or test of the carried group asks for the per-test owned
    /// context, but the group has no `before_each` that produces one.
    MissingOwnedContext(String),
    /// The carried text was supplied as an explicit seed but does not parse
    /// as a non-negative 64-bit integer.
    InvalidSeed(String),
}

/// The outcome of one test body.
pub enum TestOutcome {
    Passed,
    Failed(String),
}

/// The recorded result of one executed test.
pub struct TestResult {
    pub name: String,
    pub module: String,
    pub file: String,
    pub line: u32,
    pub outcome: TestOutcome,
    /// Wall-clock duration of the test, in microseconds, as measured by the
    /// harness.
    pub duration_micros: u64,
}

/// How many of the results in `s` passed.
pub open spec fn count_passed(s: Seq<TestResult>) -> nat
    decreases s.len(),
{
    if s.len() == 0 {
        0
    } else {
        count_passed(s.drop_last()) + if s.last().outcome is Passed {
            1nat
        } else {
            0nat
        }
    }
}

/// How many of the results in `s` failed.
pub open spec fn count_failed(s: Seq<TestResult>) -> nat
    decreases s.len(),
{
    if s.len() == 0 {
        0
    } else {
        count_failed(s.drop_last()) + if s.last().outcome is Failed {
            1nat
        } else {
            0nat
        }
    }
}

/// Every result is either a pass or a failure, so the two counts always add
/// up to the number of results.
pub proof fn lemma_counts_partition(s: Seq<TestResult>)
    ensures
        count_passed(s) + count_failed(s) == s.len(),
    decreases s.len(),
{
    if s.len() > 0 {
        lemma_counts_partition(s.drop_last());
    }
}

/// Aggregate of one whole run: the per-test results in execution order, the
/// seed that controlled the order, and the total elapsed time.
pub struct SuiteResult {
    pub results: Vec<TestResult>,
    pub seed: u64,
    pub total_micros: u64,
}

impl SuiteResult {
    /// The number of tests that passed.
    pub fn passed(&self) -> (n: usize)
        ensures
            n == count_passed(self.results@),
    {
        let mut n: usize = 0;
        let mut i: usize = 0;
        while i < self.results.len()
            invariant
                i <= self.results@.len(),
                n == count_passed(self.results@.take(i as int)),
                n <= i,
            decreases self.results@.len() - i,
        {
            proof {
                assert(self.results@.take(i + 1int).drop_last() =~= self.results@.take(i as int));
                assert(self.results@.take(i + 1int).last() == self.results@[i as int]);
            }
            if matches!(self.results[i].outcome, TestOutcome::Passed) {
                n = n + 1;
            }
            i = i + 1;
        }
        proof {
            assert(self.results@.take(self.results@.len() as int) =~= self.results@);
        }
        n
    }

    /// The number of tests that failed.
    pub fn failed(&self) -> (n: usize)
        ensures
            n == count_failed(self.results@),
    {
        let mut n: usize = 0;
        let mut i: usize = 0;
        while i < self.results.len()
            invariant
                i <= self.results@.len(),
                n == count_failed(self.results@.take(i as int)),
                n <= i,
            decreases self.results@.len() - i,
        {
            proof {
                assert(self.results@.take(i + 1int).drop_last() =~= self.results@.take(i as int));
                assert(self.results@.take(i + 1int).last() == self.results@[i as int]);
            }
            if matches!(self.results[i].outcome, TestOutcome::Failed(_)) {
                n = n + 1;
            }
            i = i + 1;
        }
        proof {
            assert(self.results@.take(self.results@.len() as int) =~= self.results@);
        }
        n
    }

    /// Whether every recorded test passed. True exactly when no result is a
    /// failure; in particular it is true for an empty run.
    pub fn all_passed(&self) -> (b: bool)
        ensures
            b == (count_failed(self.results@) == 0),
            b == (forall|i: int|
                0 <= i < self.results@.len() ==> self.results@[i].outcome is Passed),
    {
        proof {
            lemma_counts_partition(self.results@);
            lemma_count_failed_zero(self.results@);
        }
        let n = self.failed();
        n == 0
    }
}

/// A result sequence has no failures exactly when every entry passed.
proof fn lemma_count_failed_zero(s: Seq<TestResult>)
    ensures
        (count_failed(s) == 0) == (forall|i: int| 0 <= i < s.len() ==> s[i].outcome is Passed),
    decreases s.len(),
{
    if s.len() > 0 {
        lemma_count_failed_zero(s.drop_last());
        if count_failed(s) == 0 {
            assert forall|i: int| 0 <= i < s.len() implies s[i].outcome is Passed by {
                if i < s.len() - 1 {
                    assert(s.drop_last()[i] == s[i]);
                }
            }
        } else {
            if count_failed(s.drop_last()) != 0 {
                let j = choose|j: int|
                    0 <= j < s.drop_last().len() && !(s.drop_last()[j].outcome is Passed);
                assert(s[j] == s.drop_last()[j]);
            }
        }
    }
}

} // verus!
