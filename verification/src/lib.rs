//! A lightweight single-shot benchmark harness.
//!
//! Benchmarks are run a configured number of times, each run measured once,
//! and the median duration is reported. Suites can be persisted, reloaded,
//! and compared against a baseline to detect regressions.

pub mod clock;
pub mod codec;
pub mod config;
pub mod context;
pub mod glob;
pub mod harness;
pub mod report;
pub mod result;
pub mod runner;
pub mod text;
