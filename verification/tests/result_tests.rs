use cntryl_stress::report::ConsoleReporter;
use cntryl_stress::result::{BenchResult, SuiteResult, DEFAULT_THRESHOLD_PPM};

fn named_result(name: &str, duration_ns: u64) -> BenchResult {
    BenchResult {
        name: name.to_string(),
        duration: duration_ns,
        bytes: None,
        elements: None,
        all_runs: vec![],
        tags: vec![],
    }
}

#[test]
fn should_calculate_throughput_when_bytes_set() {
    let result = BenchResult {
        name: "test".to_string(),
        duration: 1_000_000_000,
        bytes: Some(1_000_000),
        elements: None,
        all_runs: vec![1_000_000_000],
        tags: vec![],
    };
    assert_eq!(ConsoleReporter::format_throughput(&result), "1.00 MB/s");
}

#[test]
fn should_detect_regression_when_slower() {
    let baseline = named_result("test", 100_000_000);
    let current = named_result("test", 120_000_000);
    assert!(current.is_regression(&baseline, DEFAULT_THRESHOLD_PPM));
}

#[test]
fn should_not_detect_regression_when_within_threshold() {
    let baseline = named_result("test", 100_000_000);
    let current = named_result("test", 103_000_000);
    assert!(!current.is_regression(&baseline, DEFAULT_THRESHOLD_PPM));
}

#[test]
fn regression_ratio_in_parts_per_million() {
    let baseline = named_result("test", 100_000_000);
    let current = named_result("test", 120_000_000);
    assert_eq!(current.compare(&baseline), 1_200_000);
}

#[test]
fn find_regressions_joins_by_name_and_keeps_order() {
    let current = SuiteResult {
        suite: "s".to_string(),
        results: vec![
            named_result("a", 120),
            named_result("unmatched", 900),
            named_result("b", 101),
            named_result("c", 300),
        ],
        total_duration: 0,
        started_at: String::new(),
        runs: 1,
        warmup_runs: 0,
        git_sha: None,
        metadata: vec![],
    };
    let baseline = SuiteResult {
        suite: "s".to_string(),
        results: vec![named_result("a", 100), named_result("b", 100), named_result("c", 100)],
        total_duration: 0,
        started_at: String::new(),
        runs: 1,
        warmup_runs: 0,
        git_sha: None,
        metadata: vec![],
    };
    let regressions = current.find_regressions(&baseline, DEFAULT_THRESHOLD_PPM);
    assert_eq!(regressions.len(), 2);
    assert_eq!(regressions[0], (0, 1_200_000));
    assert_eq!(regressions[1], (3, 3_000_000));
}

#[test]
fn min_and_max_duration_over_runs() {
    let result = BenchResult {
        name: "spread".to_string(),
        duration: 3,
        bytes: None,
        elements: None,
        all_runs: vec![1, 3, 5],
        tags: vec![],
    };
    assert_eq!(result.min_duration(), 1);
    assert_eq!(result.max_duration(), 5);
    let empty = named_result("empty", 7);
    assert_eq!(empty.min_duration(), 7);
    assert_eq!(empty.max_duration(), 7);
}
