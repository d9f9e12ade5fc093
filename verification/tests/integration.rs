//! The hook layering observed through the engine: groups with `before`,
//! `before_each`, `after_each` and `after` hooks, suite-level hooks, and
//! context values flowing from setup hooks into tests and teardown hooks.

use spectacular::context::ContextStore;
use spectacular::engine::Engine;
use spectacular::registry::Registry;
use spectacular::steps::Step;
use spectacular::types::{HookSpec, SuiteHook, SuiteHookKind, SuiteResult, TestCase, TestGroup,
    TestOutcome};

fn hook(id: usize) -> HookSpec {
    HookSpec {
        hook_id: id,
        produces_shared: false,
        needs_shared: false,
        produces_owned: false,
        needs_owned: false,
    }
}

fn hook_produces_shared(id: usize) -> HookSpec {
    HookSpec { produces_shared: true, ..hook(id) }
}

fn hook_needs_shared(id: usize) -> HookSpec {
    HookSpec { needs_shared: true, ..hook(id) }
}

fn hook_produces_owned(id: usize) -> HookSpec {
    HookSpec { produces_owned: true, ..hook(id) }
}

fn hook_consumes(id: usize, shared: bool, owned: bool) -> HookSpec {
    HookSpec { needs_shared: shared, needs_owned: owned, ..hook(id) }
}

fn case(name: &str, module: &str) -> TestCase {
    TestCase {
        name: String::from(name),
        module: String::from(module),
        file: String::from("integration.rs"),
        line: 1,
        needs_shared: false,
        needs_owned: false,
    }
}

fn case_ctx(name: &str, module: &str, needs_shared: bool, needs_owned: bool) -> TestCase {
    TestCase { needs_shared, needs_owned, ..case(name, module) }
}

fn group(
    name: &str,
    before: Option<HookSpec>,
    after: Option<HookSpec>,
    before_each: Option<HookSpec>,
    after_each: Option<HookSpec>,
    suite: bool,
) -> TestGroup {
    TestGroup { name: String::from(name), before, after, before_each, after_each, suite }
}

/// Drive the engine over the registry: `perform` acts out each step and
/// hands back the outcome for test-body steps.
fn run_suite<F>(reg: Registry, seed: u64, mut perform: F) -> SuiteResult
where
    F: FnMut(&Engine, Step) -> Option<TestOutcome>,
{
    let mut eng = Engine::from_registry(reg, seed).expect("discovery should be acceptable");
    loop {
        let step = match eng.current_step() {
            Some(s) => s,
            None => break,
        };
        match step {
            Step::RunTest { .. } => {
                let outcome = perform(&eng, step).expect("a test body yields an outcome");
                eng.advance_test(outcome, 1);
            }
            _ => {
                perform(&eng, step);
                eng.advance_hook();
            }
        }
    }
    eng.finish(1)
}

fn test_name(eng: &Engine, step: Step) -> String {
    match step {
        Step::RunTest { group, test } => eng.test_case(group, test).name.clone(),
        _ => String::new(),
    }
}

// ===== Group `before` runs once, visible to every test =====

#[test]
fn sees_before() {
    let mut reg = Registry::new();
    reg.register_group(group("attribute_style", Some(hook(0)), None, Some(hook(1)), None, false));
    reg.register_test(case("sees_before", "attribute_style"));
    reg.register_test(case("sees_before_each", "attribute_style"));
    let mut attr_before = false;
    let mut attr_before_each_count = 0usize;
    let result = run_suite(reg, 11, |eng, step| match step {
        Step::GroupBefore { .. } => {
            attr_before = true;
            None
        }
        Step::GroupBeforeEach { .. } => {
            attr_before_each_count += 1;
            None
        }
        Step::RunTest { .. } => {
            if test_name(eng, step) == "sees_before" {
                assert!(attr_before);
            } else {
                assert!(attr_before_each_count >= 1);
            }
            Some(TestOutcome::Passed)
        }
        _ => None,
    });
    assert!(result.all_passed());
}

#[test]
fn sees_before_each() {
    let mut reg = Registry::new();
    reg.register_group(group("attribute_style", Some(hook(0)), None, Some(hook(1)), None, false));
    reg.register_test(case("sees_before", "attribute_style"));
    reg.register_test(case("sees_before_each", "attribute_style"));
    let mut attr_before = false;
    let mut attr_before_each_count = 0usize;
    let result = run_suite(reg, 12, |eng, step| match step {
        Step::GroupBefore { .. } => {
            attr_before = true;
            None
        }
        Step::GroupBeforeEach { .. } => {
            attr_before_each_count += 1;
            None
        }
        Step::RunTest { .. } => {
            if test_name(eng, step) == "sees_before_each" {
                assert!(attr_before_each_count >= 1);
            } else {
                assert!(attr_before);
            }
            Some(TestOutcome::Passed)
        }
        _ => None,
    });
    assert!(result.all_passed());
}

// ===== Suite hooks combined with group hooks =====

#[test]
fn sees_suite_and_group_before() {
    let mut reg = Registry::new();
    reg.register_suite_hook(SuiteHook { kind: SuiteHookKind::Before, hook_id: 0 });
    reg.register_group(group(
        "attribute_style_with_suite",
        Some(hook(1)),
        None,
        None,
        None,
        true,
    ));
    reg.register_test(case("sees_suite_and_group_before", "attribute_style_with_suite"));
    reg.register_test(case("suite_before_each_fires", "attribute_style_with_suite"));
    let mut suite_before_ran = false;
    let mut group_before_ran = false;
    let result = run_suite(reg, 13, |eng, step| match step {
        Step::SuiteBefore { .. } => {
            suite_before_ran = true;
            None
        }
        Step::GroupBefore { .. } => {
            group_before_ran = true;
            None
        }
        Step::RunTest { .. } => {
            if test_name(eng, step) == "sees_suite_and_group_before" {
                assert!(suite_before_ran);
                assert!(group_before_ran);
            }
            Some(TestOutcome::Passed)
        }
        _ => None,
    });
    assert!(result.all_passed());
}

#[test]
fn suite_before_each_fires() {
    let mut reg = Registry::new();
    reg.register_suite_hook(SuiteHook { kind: SuiteHookKind::Before, hook_id: 0 });
    reg.register_suite_hook(SuiteHook { kind: SuiteHookKind::BeforeEach, hook_id: 1 });
    reg.register_group(group("attribute_style_with_suite", None, None, None, None, true));
    reg.register_test(case("sees_suite_and_group_before", "attribute_style_with_suite"));
    reg.register_test(case("suite_before_each_fires", "attribute_style_with_suite"));
    let mut suite_before_each_count = 0usize;
    let result = run_suite(reg, 14, |eng, step| match step {
        Step::SuiteBeforeEach { .. } => {
            suite_before_each_count += 1;
            None
        }
        Step::RunTest { .. } => {
            if test_name(eng, step) == "suite_before_each_fires" {
                assert!(suite_before_each_count >= 1);
            }
            Some(TestOutcome::Passed)
        }
        _ => None,
    });
    assert!(result.all_passed());
}

// ===== A per-test setup hook fires for plain synchronous tests too =====

#[test]
fn sync_test_in_async_suite() {
    let mut reg = Registry::new();
    reg.register_group(group("async_attribute_style", None, None, Some(hook(0)), Some(hook(1)), false));
    reg.register_test(case("sync_test_in_async_suite", "async_attribute_style"));
    let mut before_each_count = 0usize;
    let result = run_suite(reg, 15, |_eng, step| match step {
        Step::GroupBeforeEach { .. } => {
            before_each_count += 1;
            None
        }
        Step::RunTest { .. } => {
            assert!(before_each_count >= 1);
            Some(TestOutcome::Passed)
        }
        _ => None,
    });
    assert!(result.all_passed());
}

#[test]
fn sync_test_in_feature_suite() {
    let mut reg = Registry::new();
    reg.register_group(group("feature_default_attr", None, None, Some(hook(0)), None, false));
    reg.register_test(case("sync_test_in_feature_suite", "feature_default_attr"));
    let mut before_each_count = 0usize;
    let result = run_suite(reg, 16, |_eng, step| match step {
        Step::GroupBeforeEach { .. } => {
            before_each_count += 1;
            None
        }
        Step::RunTest { .. } => {
            assert!(before_each_count >= 1);
            Some(TestOutcome::Passed)
        }
        _ => None,
    });
    assert!(result.all_passed());
}

#[test]
fn pure_sync() {
    let mut reg = Registry::new();
    reg.register_group(group("sync_only_attr_with_feature", None, None, None, None, false));
    reg.register_test(case("pure_sync", "sync_only_attr_with_feature"));
    let result = run_suite(reg, 17, |_eng, step| match step {
        Step::RunTest { .. } => {
            assert_eq!(2 + 2, 4);
            Some(TestOutcome::Passed)
        }
        _ => None,
    });
    assert_eq!(result.passed(), 1);
}

// ===== Shared context: `before` produces a value, tests borrow it =====

#[test]
fn test_receives_before_ref() {
    let mut reg = Registry::new();
    reg.register_group(group(
        "attr_before_ctx",
        Some(hook_produces_shared(0)),
        Some(hook_needs_shared(1)),
        None,
        None,
        false,
    ));
    reg.register_test(case_ctx("test_receives_before_ref", "attr_before_ctx", true, false));
    reg.register_test(case_ctx("test_receives_before_ref_2", "attr_before_ctx", true, false));
    let mut store: ContextStore<String, ()> = ContextStore::new();
    let mut after_called = false;
    let result = run_suite(reg, 18, |_eng, step| match step {
        Step::GroupBefore { .. } => {
            store.set_shared(String::from("hello"));
            None
        }
        Step::RunTest { .. } => {
            let val = store.shared().expect("shared context is present");
            assert_eq!(val, "hello");
            Some(TestOutcome::Passed)
        }
        Step::GroupAfter { .. } => {
            let val = store.shared().expect("shared context is present");
            assert_eq!(val, "hello");
            after_called = true;
            None
        }
        _ => None,
    });
    assert!(result.all_passed());
    assert!(after_called);
}

#[test]
fn test_receives_before_ref_2() {
    let mut reg = Registry::new();
    reg.register_group(group(
        "attr_before_ctx",
        Some(hook_produces_shared(0)),
        Some(hook_needs_shared(1)),
        None,
        None,
        false,
    ));
    reg.register_test(case_ctx("test_receives_before_ref", "attr_before_ctx", true, false));
    reg.register_test(case_ctx("test_receives_before_ref_2", "attr_before_ctx", true, false));
    let mut store: ContextStore<String, ()> = ContextStore::new();
    let result = run_suite(reg, 19, |eng, step| match step {
        Step::GroupBefore { .. } => {
            store.set_shared(String::from("hello"));
            None
        }
        Step::RunTest { .. } => {
            if test_name(eng, step) == "test_receives_before_ref_2" {
                let val = store.shared().expect("shared context is present");
                assert_eq!(val, "hello");
            }
            Some(TestOutcome::Passed)
        }
        _ => None,
    });
    assert!(result.all_passed());
}

// ===== Owned context: `before_each` produces a fresh value per test =====

#[test]
fn test_gets_owned() {
    let mut reg = Registry::new();
    reg.register_group(group(
        "attr_before_each_ctx",
        None,
        None,
        Some(hook_produces_owned(0)),
        Some(hook_consumes(1, false, true)),
        false,
    ));
    reg.register_test(case_ctx("test_gets_owned", "attr_before_each_ctx", false, true));
    reg.register_test(case_ctx("test_gets_owned_2", "attr_before_each_ctx", false, true));
    let mut store: ContextStore<(), usize> = ContextStore::new();
    let mut after_each_sum = 0usize;
    let result = run_suite(reg, 20, |_eng, step| match step {
        Step::GroupBeforeEach { .. } => {
            store.set_owned(99);
            None
        }
        Step::RunTest { .. } => {
            let val = *store.owned.as_ref().expect("owned context is present");
            assert_eq!(val, 99);
            Some(TestOutcome::Passed)
        }
        Step::GroupAfterEach { .. } => {
            let val = store.take_owned().expect("owned context is present");
            after_each_sum += val;
            None
        }
        _ => None,
    });
    assert!(result.all_passed());
    assert_eq!(after_each_sum, 99 + 99);
}

#[test]
fn test_gets_owned_2() {
    let mut reg = Registry::new();
    reg.register_group(group(
        "attr_before_each_ctx",
        None,
        None,
        Some(hook_produces_owned(0)),
        Some(hook_consumes(1, false, true)),
        false,
    ));
    reg.register_test(case_ctx("test_gets_owned", "attr_before_each_ctx", false, true));
    reg.register_test(case_ctx("test_gets_owned_2", "attr_before_each_ctx", false, true));
    let mut store: ContextStore<(), usize> = ContextStore::new();
    let result = run_suite(reg, 21, |eng, step| match step {
        Step::GroupBeforeEach { .. } => {
            store.set_owned(99);
            None
        }
        Step::RunTest { .. } => {
            if test_name(eng, step) == "test_gets_owned_2" {
                let val = *store.owned.as_ref().expect("owned context is present");
                assert_eq!(val, 99);
            }
            Some(TestOutcome::Passed)
        }
        Step::GroupAfterEach { .. } => {
            store.take_owned();
            None
        }
        _ => None,
    });
    assert!(result.all_passed());
}

// ===== The full stack: shared and owned context together =====

fn full_stack_registry() -> Registry {
    let mut reg = Registry::new();
    reg.register_group(group(
        "attr_full_ctx_stack",
        Some(hook_produces_shared(0)),
        Some(hook_needs_shared(1)),
        Some(HookSpec { needs_shared: true, produces_owned: true, ..hook(2) }),
        Some(hook_consumes(3, true, true)),
        false,
    ));
    reg.register_test(case_ctx("test_full_stack", "attr_full_ctx_stack", true, true));
    reg.register_test(case_ctx("test_full_stack_2", "attr_full_ctx_stack", true, true));
    reg
}

#[test]
fn test_full_stack() {
    let mut store: ContextStore<i32, String> = ContextStore::new();
    let mut after_called = false;
    let mut after_each_count = 0usize;
    let result = run_suite(full_stack_registry(), 22, |_eng, step| match step {
        Step::GroupBefore { .. } => {
            store.set_shared(42);
            None
        }
        Step::GroupBeforeEach { .. } => {
            let shared = *store.shared().expect("shared context is present");
            store.set_owned(format!("ctx-{}", shared));
            None
        }
        Step::RunTest { .. } => {
            let shared = *store.shared().expect("shared context is present");
            let owned = store.owned.as_ref().expect("owned context is present");
            assert_eq!(shared, 42);
            assert_eq!(owned, "ctx-42");
            Some(TestOutcome::Passed)
        }
        Step::GroupAfterEach { .. } => {
            let shared = *store.shared().expect("shared context is present");
            let owned = store.take_owned().expect("owned context is present");
            assert_eq!(shared, 42);
            assert_eq!(owned, "ctx-42");
            after_each_count += 1;
            None
        }
        Step::GroupAfter { .. } => {
            let shared = *store.shared().expect("shared context is present");
            assert_eq!(shared, 42);
            after_called = true;
            None
        }
        _ => None,
    });
    assert!(result.all_passed());
    assert!(after_called);
    assert_eq!(after_each_count, 2);
}

#[test]
fn test_full_stack_2() {
    let mut store: ContextStore<i32, String> = ContextStore::new();
    let result = run_suite(full_stack_registry(), 23, |eng, step| match step {
        Step::GroupBefore { .. } => {
            store.set_shared(42);
            None
        }
        Step::GroupBeforeEach { .. } => {
            let shared = *store.shared().expect("shared context is present");
            store.set_owned(format!("ctx-{}", shared));
            None
        }
        Step::RunTest { .. } => {
            if test_name(eng, step) == "test_full_stack_2" {
                let shared = *store.shared().expect("shared context is present");
                let owned = store.owned.as_ref().expect("owned context is present");
                assert_eq!(shared, 42);
                assert_eq!(owned, "ctx-42");
            }
            Some(TestOutcome::Passed)
        }
        Step::GroupAfterEach { .. } => {
            store.take_owned();
            None
        }
        _ => None,
    });
    assert!(result.all_passed());
}

// ===== Context flows to teardown even when the test takes no parameters =====

#[test]
fn test_no_params() {
    let mut reg = Registry::new();
    reg.register_group(group(
        "attr_no_test_params_ctx",
        None,
        None,
        Some(hook_produces_owned(0)),
        Some(hook_consumes(1, false, true)),
        false,
    ));
    reg.register_test(case("test_no_params", "attr_no_test_params_ctx"));
    let mut store: ContextStore<(), usize> = ContextStore::new();
    let mut after_each_count = 0usize;
    let result = run_suite(reg, 24, |_eng, step| match step {
        Step::GroupBeforeEach { .. } => {
            store.set_owned(77);
            None
        }
        Step::RunTest { .. } => {
            assert_eq!(1 + 1, 2);
            Some(TestOutcome::Passed)
        }
        Step::GroupAfterEach { .. } => {
            let val = store.take_owned().expect("owned context is present");
            assert_eq!(val, 77);
            after_each_count += 1;
            None
        }
        _ => None,
    });
    assert!(result.all_passed());
    assert_eq!(after_each_count, 1);
}

// ===== Owned context whose type was inferred in the declaration =====

#[test]
fn receives_inferred() {
    let mut reg = Registry::new();
    reg.register_group(group(
        "attr_before_each_infer_sync",
        None,
        None,
        Some(hook_produces_owned(0)),
        None,
        false,
    ));
    reg.register_test(case_ctx("receives_inferred", "attr_before_each_infer_sync", false, true));
    let mut store: ContextStore<(), (String, u32)> = ContextStore::new();
    let result = run_suite(reg, 25, |_eng, step| match step {
        Step::GroupBeforeEach { .. } => {
            store.set_owned((String::from("attr-inferred"), 88));
            None
        }
        Step::RunTest { .. } => {
            let (s, n) = store.take_owned().expect("owned context is present");
            assert_eq!(s, "attr-inferred");
            assert_eq!(n, 88);
            Some(TestOutcome::Passed)
        }
        _ => None,
    });
    assert!(result.all_passed());
}

#[test]
fn full_stack_infer() {
    let mut reg = Registry::new();
    reg.register_group(group(
        "attr_full_stack_infer",
        Some(hook_produces_shared(0)),
        None,
        Some(HookSpec { needs_shared: true, produces_owned: true, ..hook(1) }),
        Some(hook_consumes(2, true, true)),
        false,
    ));
    reg.register_test(case_ctx("full_stack_infer", "attr_full_stack_infer", true, true));
    let mut store: ContextStore<i32, String> = ContextStore::new();
    let mut after_each_count = 0usize;
    let result = run_suite(reg, 26, |_eng, step| match step {
        Step::GroupBefore { .. } => {
            store.set_shared(5);
            None
        }
        Step::GroupBeforeEach { .. } => {
            let n = *store.shared().expect("shared context is present");
            store.set_owned(format!("item-{}", n));
            None
        }
        Step::RunTest { .. } => {
            let n = *store.shared().expect("shared context is present");
            let s = store.owned.as_ref().expect("owned context is present");
            assert_eq!(n, 5);
            assert_eq!(s, "item-5");
            Some(TestOutcome::Passed)
        }
        Step::GroupAfterEach { .. } => {
            let n = *store.shared().expect("shared context is present");
            let s = store.take_owned().expect("owned context is present");
            assert_eq!(n, 5);
            assert_eq!(s, "item-5");
            after_each_count += 1;
            None
        }
        _ => None,
    });
    assert!(result.all_passed());
    assert_eq!(after_each_count, 1);
}
