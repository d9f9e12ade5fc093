//! An orchestration engine for layered test fixtures and hooks.
//!
//! A registry collects test cases, per-group hook sets and suite-level hooks;
//! a seeded scheduler derives a reproducible execution order; the engine
//! unfolds that order into a sequence of steps (suite, group and per-test
//! hooks around each test body) with exactly-once and teardown-under-failure
//! guarantees, and aggregates the outcomes into a suite result.

pub mod context;
pub mod engine;
pub mod laws;
pub mod registry;
pub mod sched;
pub mod steps;
pub mod strorder;
pub mod textutil;
pub mod types;
