//! End-to-end behavior of the engine: setup computed once and observed by
//! everyone, no state leaking between tests, teardown under failure, the
//! suite layer firing once per process and once per opted-in test,
//! reproducible order under an explicit seed, and the countdown firing the
//! group teardown exactly after the last test.

use spectacular::context::ContextStore;
use spectacular::engine::{dry_run, Engine};
use spectacular::registry::Registry;
use spectacular::steps::Step;
use spectacular::types::{HookSpec, SuiteHook, SuiteHookKind, SuiteResult, TestCase, TestGroup,
    TestOutcome};

fn hook(id: usize) -> HookSpec {
    HookSpec {
        hook_id: id,
        produces_shared: false,
        needs_shared: false,
        produces_owned: false,
        needs_owned: false,
    }
}

fn case(name: &str, module: &str) -> TestCase {
    TestCase {
        name: String::from(name),
        module: String::from(module),
        file: String::from("properties.rs"),
        line: 1,
        needs_shared: false,
        needs_owned: false,
    }
}

fn group(
    name: &str,
    before: Option<HookSpec>,
    after: Option<HookSpec>,
    before_each: Option<HookSpec>,
    after_each: Option<HookSpec>,
    suite: bool,
) -> TestGroup {
    TestGroup { name: String::from(name), before, after, before_each, after_each, suite }
}

fn run_suite<F>(reg: Registry, seed: u64, mut perform: F) -> SuiteResult
where
    F: FnMut(&Engine, Step) -> Option<TestOutcome>,
{
    let mut eng = Engine::from_registry(reg, seed).expect("discovery should be acceptable");
    loop {
        let step = match eng.current_step() {
            Some(s) => s,
            None => break,
        };
        match step {
            Step::RunTest { .. } => {
                let outcome = perform(&eng, step).expect("a test body yields an outcome");
                eng.advance_test(outcome, 1);
            }
            _ => {
                perform(&eng, step);
                eng.advance_hook();
            }
        }
    }
    eng.finish(1)
}

/// The shared value is computed exactly once per group, and all tests and
/// the group teardown observe the identical value.
#[test]
fn shared_value_computed_once() {
    let mut reg = Registry::new();
    reg.register_group(group(
        "shared_once",
        Some(HookSpec { produces_shared: true, ..hook(0) }),
        Some(HookSpec { needs_shared: true, ..hook(1) }),
        None,
        None,
        false,
    ));
    for name in ["first", "second", "third"] {
        let mut c = case(name, "shared_once");
        c.needs_shared = true;
        reg.register_test(c);
    }
    let mut store: ContextStore<u64, ()> = ContextStore::new();
    let mut compute_count = 0usize;
    let mut observed: Vec<u64> = Vec::new();
    let result = run_suite(reg, 3, |_eng, step| match step {
        Step::GroupBefore { .. } => {
            compute_count += 1;
            store.set_shared(4242);
            None
        }
        Step::RunTest { .. } => {
            observed.push(*store.shared().expect("shared context is present"));
            Some(TestOutcome::Passed)
        }
        Step::GroupAfter { .. } => {
            observed.push(*store.shared().expect("shared context is present"));
            None
        }
        _ => None,
    });
    assert_eq!(compute_count, 1);
    assert_eq!(observed, vec![4242, 4242, 4242, 4242]);
    assert_eq!(result.passed(), 3);
}

/// Each test gets a fresh owned value: a `before_each` that resets a
/// counter to zero means every test observes zero, no matter what the
/// previous test did to its own instance.
#[test]
fn owned_context_does_not_leak() {
    let mut reg = Registry::new();
    reg.register_group(group(
        "no_leak",
        None,
        None,
        Some(HookSpec { produces_owned: true, ..hook(0) }),
        Some(HookSpec { needs_owned: true, ..hook(1) }),
        false,
    ));
    for name in ["alpha", "beta", "gamma", "delta"] {
        let mut c = case(name, "no_leak");
        c.needs_owned = true;
        reg.register_test(c);
    }
    let mut store: ContextStore<(), u64> = ContextStore::new();
    let mut observed_at_start: Vec<u64> = Vec::new();
    let result = run_suite(reg, 9, |_eng, step| match step {
        Step::GroupBeforeEach { .. } => {
            store.set_owned(0);
            None
        }
        Step::RunTest { .. } => {
            let counter = store.owned.as_ref().expect("owned context is present");
            observed_at_start.push(*counter);
            // the test mangles its own instance as much as it likes
            if let Some(c) = store.owned.as_mut() {
                *c += 17;
            }
            Some(TestOutcome::Passed)
        }
        Step::GroupAfterEach { .. } => {
            store.take_owned();
            None
        }
        _ => None,
    });
    assert_eq!(observed_at_start, vec![0, 0, 0, 0]);
    assert_eq!(result.passed(), 4);
}

/// Teardown under failure: with two tests of which the first to run
/// fails, both `after_each` invocations still occur, `after` occurs
/// exactly once, the other test still runs and passes, and the suite
/// result reports exactly one pass and one fail.
#[test]
fn teardown_runs_when_a_test_fails() {
    let mut reg = Registry::new();
    reg.register_group(group(
        "panic_resilience",
        None,
        Some(hook(0)),
        None,
        Some(hook(1)),
        false,
    ));
    reg.register_test(case("deliberately_fails", "panic_resilience"));
    reg.register_test(case("runs_despite_sibling", "panic_resilience"));
    let mut after_each_count = 0usize;
    let mut after_count = 0usize;
    let mut sibling_ran = false;
    let result = run_suite(reg, 7, |eng, step| match step {
        Step::RunTest { group, test } => {
            if eng.test_case(group, test).name == "deliberately_fails" {
                Some(TestOutcome::Failed(String::from("intentional")))
            } else {
                sibling_ran = true;
                Some(TestOutcome::Passed)
            }
        }
        Step::GroupAfterEach { .. } => {
            after_each_count += 1;
            None
        }
        Step::GroupAfter { .. } => {
            after_count += 1;
            None
        }
        _ => None,
    });
    assert_eq!(after_each_count, 2);
    assert_eq!(after_count, 1);
    assert!(sibling_ran);
    assert_eq!(result.passed(), 1);
    assert_eq!(result.failed(), 1);
    assert!(!result.all_passed());
}

/// The suite layer fires once per process and once per opted-in test:
/// with two opted-in groups holding three tests in all, the suite
/// `before` runs exactly once and the suite `before_each` exactly three
/// times — never for the group that did not opt in.
#[test]
fn suite_hooks_fire_once_per_process_and_test() {
    let mut reg = Registry::new();
    reg.register_suite_hook(SuiteHook { kind: SuiteHookKind::Before, hook_id: 0 });
    reg.register_suite_hook(SuiteHook { kind: SuiteHookKind::BeforeEach, hook_id: 1 });
    reg.register_suite_hook(SuiteHook { kind: SuiteHookKind::AfterEach, hook_id: 2 });
    reg.register_suite_hook(SuiteHook { kind: SuiteHookKind::After, hook_id: 3 });
    reg.register_group(group("opted_one", None, None, None, None, true));
    reg.register_group(group("opted_two", None, None, None, None, true));
    reg.register_group(group("outsider", None, None, None, None, false));
    reg.register_test(case("a", "opted_one"));
    reg.register_test(case("b", "opted_one"));
    reg.register_test(case("c", "opted_two"));
    reg.register_test(case("d", "outsider"));
    let mut suite_before = 0usize;
    let mut suite_before_each = 0usize;
    let mut suite_after_each = 0usize;
    let mut suite_after = 0usize;
    let result = run_suite(reg, 5, |_eng, step| match step {
        Step::SuiteBefore { .. } => {
            suite_before += 1;
            None
        }
        Step::SuiteBeforeEach { .. } => {
            suite_before_each += 1;
            None
        }
        Step::SuiteAfterEach { .. } => {
            suite_after_each += 1;
            None
        }
        Step::SuiteAfter { .. } => {
            suite_after += 1;
            None
        }
        Step::RunTest { .. } => Some(TestOutcome::Passed),
        _ => None,
    });
    assert_eq!(suite_before, 1);
    assert_eq!(suite_before_each, 3);
    assert_eq!(suite_after_each, 3);
    assert_eq!(suite_after, 1);
    assert_eq!(result.passed(), 4);
}

fn record_order(reg: Registry, seed: u64) -> Vec<(String, String)> {
    let mut order: Vec<(String, String)> = Vec::new();
    let mut eng = Engine::from_registry(reg, seed).expect("discovery should be acceptable");
    loop {
        let step = match eng.current_step() {
            Some(s) => s,
            None => break,
        };
        match step {
            Step::RunTest { group, test } => {
                let tc = eng.test_case(group, test);
                order.push((tc.module.clone(), tc.name.clone()));
                eng.advance_test(TestOutcome::Passed, 1);
            }
            _ => eng.advance_hook(),
        }
    }
    order
}

fn reproducibility_registry() -> Registry {
    let mut reg = Registry::new();
    for gname in ["red", "green", "blue", "yellow"] {
        reg.register_group(group(gname, None, None, None, None, false));
        for tname in ["one", "two", "three"] {
            reg.register_test(case(tname, gname));
        }
    }
    reg
}

/// Running the engine twice with the same explicit seed over the same
/// registered declarations produces the identical group and test order.
#[test]
fn same_seed_same_order() {
    let first = record_order(reproducibility_registry(), 123456789);
    let second = record_order(reproducibility_registry(), 123456789);
    assert_eq!(first, second);
    assert_eq!(first.len(), 12);
}

/// The seed lands in the result, so a failing run can be reproduced.
#[test]
fn seed_is_surfaced_in_result() {
    let reg = reproducibility_registry();
    let result = run_suite(reg, 424242, |_eng, step| match step {
        Step::RunTest { .. } => Some(TestOutcome::Passed),
        _ => None,
    });
    assert_eq!(result.seed, 424242);
}

/// Countdown correctness: with five tests scheduled in shuffled order,
/// `after` fires exactly once, right after the fifth test of the group
/// completes — never earlier, never twice — even though four tests fail.
#[test]
fn after_fires_once_after_last_test() {
    let mut reg = Registry::new();
    reg.register_group(group("countdown", None, Some(hook(0)), None, None, false));
    for name in ["t1", "t2", "t3", "t4", "t5"] {
        reg.register_test(case(name, "countdown"));
    }
    let mut runs = 0usize;
    let mut after_count = 0usize;
    let mut runs_seen_at_after = Vec::new();
    let result = run_suite(reg, 98765, |_eng, step| match step {
        Step::RunTest { .. } => {
            runs += 1;
            if runs <= 4 {
                Some(TestOutcome::Failed(String::from("intentional")))
            } else {
                Some(TestOutcome::Passed)
            }
        }
        Step::GroupAfter { .. } => {
            after_count += 1;
            runs_seen_at_after.push(runs);
            None
        }
        _ => None,
    });
    assert_eq!(after_count, 1);
    assert_eq!(runs_seen_at_after, vec![5]);
    assert_eq!(result.passed(), 1);
    assert_eq!(result.failed(), 4);
}

/// A group whose tests all live in the registry without a declared hook
/// set still runs them all, with no hook steps at all.
#[test]
fn hookless_group_runs_plainly() {
    let mut reg = Registry::new();
    reg.register_test(case("passes_with_zero_hooks", "no_hooks"));
    reg.register_test(case("also_passes", "no_hooks"));
    let mut hook_steps = 0usize;
    let result = run_suite(reg, 2, |_eng, step| match step {
        Step::RunTest { .. } => Some(TestOutcome::Passed),
        _ => {
            hook_steps += 1;
            None
        }
    });
    assert_eq!(hook_steps, 0);
    assert_eq!(result.passed(), 2);
    assert!(result.all_passed());
}

/// The seeded shuffle really rearranges: under this seed the run order
/// differs from the sorted registration order, while remaining a
/// permutation of it.
#[test]
fn seeded_order_is_a_real_shuffle() {
    let mut reg = Registry::new();
    for gname in ["ant", "bee", "cat", "dog", "elk", "fox"] {
        reg.register_group(group(gname, None, None, None, None, false));
        reg.register_test(case("only", gname));
    }
    let order = record_order(reg, 20240917);
    let groups_in_run_order: Vec<String> = order.iter().map(|(g, _)| g.clone()).collect();
    let mut sorted = groups_in_run_order.clone();
    sorted.sort();
    assert_eq!(sorted, vec!["ant", "bee", "cat", "dog", "elk", "fox"]);
    assert_ne!(groups_in_run_order, sorted);
}

/// A dry run schedules every registered test exactly once and reports
/// them all as passed, without any body being invoked.
#[test]
fn dry_run_lists_every_test() {
    let mut reg = Registry::new();
    reg.register_group(group("listed", None, Some(hook(0)), Some(hook(1)), None, false));
    for name in ["u", "v", "w"] {
        reg.register_test(case(name, "listed"));
    }
    reg.register_test(case("stray", "unlisted"));
    let suite = reg.compile().expect("discovery should be acceptable");
    let result = dry_run(suite, 31);
    assert_eq!(result.results.len(), 4);
    assert!(result.all_passed());
    assert_eq!(result.seed, 31);
    assert_eq!(result.total_micros, 0);
}
