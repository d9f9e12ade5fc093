//! Unit-level behavior: slugs, escape sequences, seed parsing, string
//! ordering, result aggregation, and the configuration errors the
//! registry rejects before anything runs.

use spectacular::engine::Engine;
use spectacular::registry::Registry;
use spectacular::sched::{choose_seed, parse_seed};
use spectacular::strorder::{str_eq, str_le};
use spectacular::textutil::{fg, reset, slugify, styled};
use spectacular::types::{ConfigError, HookSpec, SuiteResult, TestCase, TestGroup, TestOutcome,
    TestResult};

fn plain_hook(id: usize) -> HookSpec {
    HookSpec {
        hook_id: id,
        produces_shared: false,
        needs_shared: false,
        produces_owned: false,
        needs_owned: false,
    }
}

fn case(name: &str, module: &str) -> TestCase {
    TestCase {
        name: String::from(name),
        module: String::from(module),
        file: String::from("units.rs"),
        line: 1,
        needs_shared: false,
        needs_owned: false,
    }
}

fn plain_group(name: &str) -> TestGroup {
    TestGroup {
        name: String::from(name),
        before: None,
        after: None,
        before_each: None,
        after_each: None,
        suite: false,
    }
}

// ===== slugs =====

#[test]
fn slugify_joins_words() {
    assert_eq!(slugify("adds two numbers"), "adds_two_numbers");
}

#[test]
fn slugify_lowers_and_collapses() {
    assert_eq!(slugify("Sees  BEFORE -- state!"), "sees_before_state");
}

#[test]
fn slugify_trims_and_falls_back() {
    assert_eq!(slugify("---"), "test");
    assert_eq!(slugify(""), "test");
    assert_eq!(slugify("trailing dots..."), "trailing_dots");
}

#[test]
fn slugify_shields_leading_digit() {
    assert_eq!(slugify("3 is a magic number"), "_3_is_a_magic_number");
}

// ===== escape sequences =====

#[test]
fn reset_sequence_is_exact() {
    assert_eq!(reset(), "\u{1b}[0m");
}

#[test]
fn fg_sequence_is_exact() {
    assert_eq!(fg(100, 200, 120), "\u{1b}[38;2;100;200;120m");
    assert_eq!(fg(0, 7, 255), "\u{1b}[38;2;0;7;255m");
}

#[test]
fn styled_wraps_only_in_color() {
    assert_eq!(styled("\u{1b}[1m", "Results:", true), "\u{1b}[1mResults:\u{1b}[0m");
    assert_eq!(styled("\u{1b}[1m", "Results:", false), "Results:");
}

// ===== seeds =====

#[test]
fn parse_seed_accepts_digits() {
    assert_eq!(parse_seed("0").unwrap(), 0);
    assert_eq!(parse_seed("42").unwrap(), 42);
    assert_eq!(parse_seed("18446744073709551615").unwrap(), u64::MAX);
}

#[test]
fn parse_seed_rejects_bad_input() {
    assert!(matches!(parse_seed(""), Err(ConfigError::InvalidSeed(_))));
    assert!(matches!(parse_seed("-3"), Err(ConfigError::InvalidSeed(_))));
    assert!(matches!(parse_seed("12x"), Err(ConfigError::InvalidSeed(_))));
    assert!(matches!(parse_seed("18446744073709551616"), Err(ConfigError::InvalidSeed(_))));
    match parse_seed("not a seed") {
        Err(ConfigError::InvalidSeed(text)) => assert_eq!(text, "not a seed"),
        _ => panic!("expected an invalid-seed error"),
    }
}

#[test]
fn choose_seed_honors_override() {
    assert_eq!(choose_seed(Some(99)), 99);
}

// ===== string ordering =====

#[test]
fn lexicographic_order_on_names() {
    assert!(str_le("alpha", "beta"));
    assert!(!str_le("beta", "alpha"));
    assert!(str_le("alp", "alpha"));
    assert!(str_le("alpha", "alpha"));
    assert!(str_eq("alpha", "alpha"));
    assert!(!str_eq("alpha", "alphas"));
}

// ===== result aggregation =====

fn result_with(outcomes: Vec<TestOutcome>) -> SuiteResult {
    let results = outcomes
        .into_iter()
        .enumerate()
        .map(|(i, outcome)| TestResult {
            name: format!("t{}", i),
            module: String::from("m"),
            file: String::from("units.rs"),
            line: 1,
            outcome,
            duration_micros: 1,
        })
        .collect();
    SuiteResult { results, seed: 1, total_micros: 9 }
}

#[test]
fn suite_result_counts() {
    let r = result_with(vec![
        TestOutcome::Passed,
        TestOutcome::Failed(String::from("boom")),
        TestOutcome::Passed,
    ]);
    assert_eq!(r.passed(), 2);
    assert_eq!(r.failed(), 1);
    assert!(!r.all_passed());
    let all_good = result_with(vec![TestOutcome::Passed, TestOutcome::Passed]);
    assert!(all_good.all_passed());
    let empty = result_with(vec![]);
    assert!(empty.all_passed());
    assert_eq!(empty.passed(), 0);
}

// ===== configuration errors =====

#[test]
fn duplicate_group_is_rejected() {
    let mut reg = Registry::new();
    reg.register_group(plain_group("twice"));
    reg.register_group(plain_group("twice"));
    match Engine::from_registry(reg, 1) {
        Err(ConfigError::DuplicateGroup(name)) => assert_eq!(name, "twice"),
        _ => panic!("expected a duplicate-group error"),
    }
}

#[test]
fn duplicate_test_is_rejected() {
    let mut reg = Registry::new();
    reg.register_test(case("same", "mod_a"));
    reg.register_test(case("same", "mod_a"));
    match Engine::from_registry(reg, 1) {
        Err(ConfigError::DuplicateTest(module, name)) => {
            assert_eq!(module, "mod_a");
            assert_eq!(name, "same");
        }
        _ => panic!("expected a duplicate-test error"),
    }
}

#[test]
fn missing_shared_context_is_rejected() {
    let mut reg = Registry::new();
    // the after hook wants a borrow of the shared value, but no before
    // produces one
    let mut g = plain_group("needs_ctx");
    g.after = Some(HookSpec { needs_shared: true, ..plain_hook(0) });
    reg.register_group(g);
    reg.register_test(case("t", "needs_ctx"));
    match Engine::from_registry(reg, 1) {
        Err(ConfigError::MissingSharedContext(name)) => assert_eq!(name, "needs_ctx"),
        _ => panic!("expected a missing-shared-context error"),
    }
}

#[test]
fn missing_owned_context_is_rejected() {
    let mut reg = Registry::new();
    let mut g = plain_group("needs_owned");
    g.after_each = Some(HookSpec { needs_owned: true, ..plain_hook(0) });
    reg.register_group(g);
    reg.register_test(case("t", "needs_owned"));
    match Engine::from_registry(reg, 1) {
        Err(ConfigError::MissingOwnedContext(name)) => assert_eq!(name, "needs_owned"),
        _ => panic!("expected a missing-owned-context error"),
    }
}

#[test]
fn needing_test_without_declared_group_is_rejected() {
    let mut reg = Registry::new();
    let mut c = case("wants_shared", "undeclared");
    c.needs_shared = true;
    reg.register_test(c);
    assert!(matches!(
        Engine::from_registry(reg, 1),
        Err(ConfigError::MissingSharedContext(_))
    ));
}

#[test]
fn acceptable_registry_compiles() {
    let mut reg = Registry::new();
    let mut g = plain_group("fine");
    g.before = Some(HookSpec { produces_shared: true, ..plain_hook(0) });
    g.after = Some(HookSpec { needs_shared: true, ..plain_hook(1) });
    reg.register_group(g);
    let mut c = case("t", "fine");
    c.needs_shared = true;
    reg.register_test(c);
    assert!(Engine::from_registry(reg, 1).is_ok());
}
