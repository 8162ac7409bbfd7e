use cntryl_stress::codec::{encode_suite, parse_suite};
use cntryl_stress::result::{BenchResult, SuiteResult};

fn sample_suite() -> SuiteResult {
    SuiteResult {
        suite: "demo \"quoted\"/nested".to_string(),
        results: vec![
            BenchResult {
                name: "demo/alpha".to_string(),
                duration: 3,
                bytes: Some(1_000_000),
                elements: None,
                all_runs: vec![1, 3, 5],
                tags: vec![("env".to_string(), "prod\n".to_string())],
            },
            BenchResult {
                name: "demo/beta".to_string(),
                duration: u64::MAX,
                bytes: None,
                elements: Some(500),
                all_runs: vec![u64::MAX],
                tags: vec![],
            },
        ],
        total_duration: 123_456_789,
        started_at: "1700000000000".to_string(),
        runs: 3,
        warmup_runs: 1,
        git_sha: Some("deadbeef".to_string()),
        metadata: vec![("host".to_string(), "ci\\box".to_string())],
    }
}

#[test]
fn suite_round_trips_bit_for_bit() {
    let suite = sample_suite();
    let encoded = encode_suite(&suite);
    let reloaded = parse_suite(&encoded).expect("a persisted suite parses back");

    assert_eq!(reloaded.suite, suite.suite);
    assert_eq!(reloaded.total_duration, suite.total_duration);
    assert_eq!(reloaded.started_at, suite.started_at);
    assert_eq!(reloaded.runs, suite.runs);
    assert_eq!(reloaded.warmup_runs, suite.warmup_runs);
    assert_eq!(reloaded.git_sha, suite.git_sha);
    assert_eq!(reloaded.metadata, suite.metadata);
    assert_eq!(reloaded.results.len(), suite.results.len());
    for (a, b) in reloaded.results.iter().zip(suite.results.iter()) {
        assert_eq!(a.name, b.name);
        assert_eq!(a.duration, b.duration);
        assert_eq!(a.bytes, b.bytes);
        assert_eq!(a.elements, b.elements);
        assert_eq!(a.all_runs, b.all_runs);
        assert_eq!(a.tags, b.tags);
    }
}

#[test]
fn suite_without_revision_round_trips() {
    let mut suite = sample_suite();
    suite.git_sha = None;
    suite.metadata = vec![];
    suite.results.truncate(0);
    let encoded = encode_suite(&suite);
    let reloaded = parse_suite(&encoded).expect("parses");
    assert_eq!(reloaded.git_sha, None);
    assert_eq!(reloaded.results.len(), 0);
    assert_eq!(reloaded.suite, suite.suite);
}

#[test]
fn durations_persist_as_integer_nanoseconds() {
    let suite = sample_suite();
    let encoded = encode_suite(&suite);
    assert!(encoded.contains("\"duration_ns\":3"));
    assert!(encoded.contains("\"all_runs_ns\":[1,3,5]"));
    assert!(encoded.contains("\"total_duration_ns\":123456789"));
    assert!(!encoded.contains("0.000"));
}

#[test]
fn malformed_input_is_rejected() {
    assert!(parse_suite("").is_none());
    assert!(parse_suite("garbage").is_none());
    assert!(parse_suite("{\"suite\":\"x\"}").is_none());
    let valid = encode_suite(&sample_suite());
    let mut truncated = valid.clone();
    truncated.pop();
    assert!(parse_suite(&truncated).is_none());
    let mut extended = valid;
    extended.push(' ');
    assert!(parse_suite(&extended).is_none());
}
