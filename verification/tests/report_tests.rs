use cntryl_stress::report::{ConsoleReporter, JsonReporter, MultiReporter};
use cntryl_stress::result::BenchResult;
use cntryl_stress::runner::SinkConfig;

fn result_with(bytes: Option<u64>, elements: Option<u64>, duration_ns: u64) -> BenchResult {
    BenchResult {
        name: "test".to_string(),
        duration: duration_ns,
        bytes,
        elements,
        all_runs: vec![],
        tags: vec![],
    }
}

#[test]
fn should_format_duration_in_appropriate_units() {
    assert!(ConsoleReporter::format_duration(2_000_000_000).contains("s"));
    assert!(!ConsoleReporter::format_duration(2_000_000_000).contains("ms"));
    assert!(ConsoleReporter::format_duration(500_000_000).contains("ms"));
    assert!(ConsoleReporter::format_duration(100_000).contains("us"));
}

#[test]
fn should_format_duration_with_two_decimals() {
    assert_eq!(ConsoleReporter::format_duration(1_234_567_000), "1.23s");
    assert_eq!(ConsoleReporter::format_duration(123_456_000), "123.46ms");
    assert_eq!(ConsoleReporter::format_duration(123_456), "123.46us");
}

#[test]
fn should_format_throughput_when_bytes_set() {
    let result = result_with(Some(1_000_000_000), None, 1_000_000_000);
    let throughput = ConsoleReporter::format_throughput(&result);
    assert!(throughput.contains("GB/s"));
}

#[test]
fn should_format_throughput_when_elements_set() {
    let result = result_with(None, Some(1_000_000), 1_000_000_000);
    let throughput = ConsoleReporter::format_throughput(&result);
    assert!(throughput.contains("ops/s"));
}

#[test]
fn should_return_empty_throughput_when_neither_set() {
    let result = result_with(None, None, 1_000_000_000);
    let throughput = ConsoleReporter::format_throughput(&result);
    assert!(throughput.is_empty());
}

#[test]
fn should_prefer_bytes_over_elements_for_throughput() {
    let result = result_with(Some(1_000_000), Some(500), 1_000_000_000);
    let throughput = ConsoleReporter::format_throughput(&result);
    assert!(throughput.contains("MB/s") || throughput.contains("KB/s"));
    assert!(!throughput.contains("ops/s"));
}

#[test]
fn bench_line_contains_name_and_duration() {
    let reporter = ConsoleReporter::new();
    let result = BenchResult {
        name: "suite/case".to_string(),
        duration: 1_500_000,
        bytes: None,
        elements: None,
        all_runs: vec![1_000_000, 1_500_000, 2_000_000],
        tags: vec![],
    };
    let line = reporter.format_bench_line(&result);
    assert!(line.contains("case"));
    assert!(line.contains("1.50ms"));
    assert!(!line.contains("runs:"));
    let verbose_line = reporter.show_all_runs(true).format_bench_line(&result);
    assert!(verbose_line.contains("runs: [1.00ms, 1.50ms, 2.00ms]"));
}

#[test]
fn summary_lists_every_benchmark() {
    let reporter = JsonReporter::new("target/stress".to_string());
    let suite = cntryl_stress::result::SuiteResult {
        suite: "demo".to_string(),
        results: vec![
            result_with(None, None, 2_000_000),
            result_with(Some(1_000_000), None, 1_000_000_000),
        ],
        total_duration: 3_000_000,
        started_at: "123".to_string(),
        runs: 1,
        warmup_runs: 0,
        git_sha: Some("abc123".to_string()),
        metadata: vec![],
    };
    let summary = reporter.format_summary(&suite);
    assert!(summary.contains("Benchmark Suite: demo"));
    assert!(summary.contains("Git SHA:   abc123"));
    assert!(summary.contains("Benchmarks: 2"));
    assert!(summary.contains("2.00ms"));
}

#[test]
fn sink_failure_does_not_change_delivery_schedule() {
    let fanout = MultiReporter::new(vec![
        SinkConfig::Console { show_all_runs: false },
        SinkConfig::Json { output_dir: "target/stress".to_string() },
    ]);
    let after_first_failed = fanout.deliveries(&vec![true, false]);
    let after_none_failed = fanout.deliveries(&vec![false, false]);
    assert_eq!(after_first_failed, vec![0, 1]);
    assert_eq!(after_first_failed, after_none_failed);
}

#[test]
fn ci_annotations_list_regressions_and_results() {
    let current = cntryl_stress::result::SuiteResult {
        suite: "s".to_string(),
        results: vec![
            result_with(None, None, 120_000_000),
            result_with(None, None, 2_500_000_000),
        ],
        total_duration: 0,
        started_at: String::new(),
        runs: 1,
        warmup_runs: 0,
        git_sha: None,
        metadata: vec![],
    };
    let mut baseline = cntryl_stress::result::SuiteResult {
        suite: "s".to_string(),
        results: vec![result_with(None, None, 100_000_000)],
        total_duration: 0,
        started_at: String::new(),
        runs: 1,
        warmup_runs: 0,
        git_sha: None,
        metadata: vec![],
    };
    baseline.results[0].name = "test".to_string();
    let out = cntryl_stress::report::format_ci_annotations(&current, Some(&baseline), 50_000);
    assert!(out.contains(
        "::warning title=Performance Regression in s::Benchmark 'test' is 20.0% slower than baseline\n"
    ));
    assert!(out.contains("::group::Benchmark Results - s\n"));
    assert!(out.contains("  test: 120.00ms\n"));
    assert!(out.contains("  test: 2.50s\n"));
    assert!(out.ends_with("::endgroup::\n"));

    let without_baseline =
        cntryl_stress::report::format_ci_annotations(&current, None, 50_000);
    assert!(!without_baseline.contains("::warning"));
    assert!(without_baseline.contains("::group::Benchmark Results - s\n"));
}
