use std::sync::atomic::{AtomicUsize, Ordering};

use cntryl_stress::config::BenchRunnerConfig;
use cntryl_stress::context::StressContext;
use cntryl_stress::runner::{BenchRunner, RunError};

#[test]
fn should_run_benchmark_when_no_filter() {
    let config = BenchRunnerConfig::new().verbose(false);
    let mut runner = BenchRunner::with_config("test", config);
    runner.reporters(vec![]);

    let outcome = runner.run("bench1", |mut ctx: StressContext| {
        ctx.measure(|| {});
        ctx
    });
    assert!(outcome.is_ok());

    let results = runner.finish();
    assert_eq!(results.len(), 1);
    assert_eq!(results[0].name, "test/bench1");
}

#[test]
fn should_filter_benchmarks_when_filter_set() {
    let config = BenchRunnerConfig::new().verbose(false).filter("keep".to_string());
    let mut runner = BenchRunner::with_config("test", config);
    runner.reporters(vec![]);

    runner
        .run("keep_this", |mut ctx: StressContext| {
            ctx.measure(|| {});
            ctx
        })
        .unwrap();
    runner
        .run("skip_this", |mut ctx: StressContext| {
            ctx.measure(|| {});
            ctx
        })
        .unwrap();

    let results = runner.finish();
    assert_eq!(results.len(), 1);
    assert!(results[0].name.contains("keep"));
}

#[test]
fn missing_measurement_is_a_protocol_violation() {
    let config = BenchRunnerConfig::new().verbose(false);
    let mut runner = BenchRunner::with_config("test", config);
    runner.reporters(vec![]);

    let outcome = runner.run("bad_bench", |ctx: StressContext| ctx);
    assert!(matches!(outcome, Err(RunError::ProtocolViolation)));
    assert_eq!(runner.finish().len(), 0);
}

#[test]
fn median_of_three_recorded_runs_is_reported() {
    let config = BenchRunnerConfig::new().verbose(false).runs(3);
    let mut runner = BenchRunner::with_config("timing", config);
    runner.reporters(vec![]);

    let durations = [5u64, 1, 3];
    let calls = AtomicUsize::new(0);
    runner
        .run("median", |mut ctx: StressContext| {
            let i = calls.fetch_add(1, Ordering::SeqCst);
            ctx.record_duration(durations[i % 3]);
            ctx
        })
        .unwrap();

    let results = runner.finish();
    assert_eq!(results[0].all_runs, vec![1, 3, 5]);
    assert_eq!(results[0].duration, 3);
}

#[test]
fn tags_merge_with_last_write_wins() {
    let config = BenchRunnerConfig::new().verbose(false).runs(2);
    let mut runner = BenchRunner::with_config("tagging", config);
    runner.reporters(vec![]);

    let calls = AtomicUsize::new(0);
    runner
        .run("tagged", |mut ctx: StressContext| {
            let i = calls.fetch_add(1, Ordering::SeqCst);
            ctx.tag("round", if i % 2 == 0 { "first" } else { "second" });
            ctx.tag("fixed", "value");
            ctx.measure(|| {});
            ctx
        })
        .unwrap();

    let results = runner.finish();
    let tags = &results[0].tags;
    assert_eq!(tags.len(), 2);
    assert_eq!(tags[0], ("round".to_string(), "second".to_string()));
    assert_eq!(tags[1], ("fixed".to_string(), "value".to_string()));
}

#[test]
fn latest_byte_count_wins() {
    let config = BenchRunnerConfig::new().verbose(false).runs(2);
    let mut runner = BenchRunner::with_config("bytes", config);
    runner.reporters(vec![]);

    runner
        .run("sized", |mut ctx: StressContext| {
            ctx.set_bytes(1024);
            ctx.set_elements(10);
            ctx.measure(|| {});
            ctx
        })
        .unwrap();

    let results = runner.finish();
    assert_eq!(results[0].bytes, Some(1024));
    assert_eq!(results[0].elements, Some(10));
}

#[test]
fn groups_prefix_benchmark_names() {
    let config = BenchRunnerConfig::new().verbose(false);
    let runner = BenchRunner::with_config("suite", config);
    let mut group = runner.group("io");
    group
        .run("write", |mut ctx: StressContext| {
            ctx.measure(|| {});
            ctx
        })
        .unwrap();
    let results = group.finish().finish();
    assert_eq!(results[0].name, "suite/io/write");
}
