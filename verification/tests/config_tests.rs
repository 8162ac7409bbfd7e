use cntryl_stress::config::{parse_u64_str, BenchRunnerConfig, EnvOverrides};
use cntryl_stress::context::StressContext;

#[test]
fn should_use_defaults_when_env_not_set() {
    let cfg = BenchRunnerConfig::default();
    assert_eq!(cfg.runs, 1);
    assert_eq!(cfg.warmup_runs, 0);
    assert!(cfg.verbose);
}

#[test]
fn should_build_config_with_builder() {
    let cfg = BenchRunnerConfig::new()
        .runs(5)
        .warmup(2)
        .verbose(false)
        .filter("my_bench".to_string());

    assert_eq!(cfg.runs, 5);
    assert_eq!(cfg.warmup_runs, 2);
    assert!(!cfg.verbose);
    assert_eq!(cfg.filter, Some("my_bench".to_string()));
}

#[test]
fn should_track_bytes_when_set() {
    let mut ctx = StressContext::new();
    ctx.set_bytes(1024);
    assert_eq!(ctx.bytes, Some(1024));
}

#[test]
fn should_track_elements_when_set() {
    let mut ctx = StressContext::new();
    ctx.set_elements(100);
    assert_eq!(ctx.elements, Some(100));
}

#[test]
fn should_collect_tags_when_added() {
    let mut ctx = StressContext::new();
    ctx.tag("env", "prod");
    ctx.tag("version", "1.0");
    assert_eq!(ctx.tags.len(), 2);
}

#[test]
fn measure_records_a_duration() {
    let mut ctx = StressContext::new();
    assert!(ctx.duration.is_none());
    let value = ctx.measure(|| 41 + 1);
    assert_eq!(value, 42);
    assert!(ctx.duration.is_some());
}

#[test]
fn record_duration_stores_exact_nanoseconds() {
    let mut ctx = StressContext::new();
    ctx.record_duration(123_456);
    assert_eq!(ctx.duration, Some(123_456));
}

#[test]
fn environment_overrides_apply_with_precedence() {
    let mut env = EnvOverrides::none();
    env.runs = Some("7".to_string());
    env.verbose = Some("FALSE".to_string());
    env.timeout_secs = Some("2".to_string());
    env.warmup = Some("not a number".to_string());
    let cfg = BenchRunnerConfig::new().apply_env(env);
    assert_eq!(cfg.runs, 7);
    assert_eq!(cfg.warmup_runs, 0);
    assert!(!cfg.verbose);
    assert_eq!(cfg.timeout, Some(2_000_000_000));
}

#[test]
fn whole_string_number_parsing() {
    assert_eq!(parse_u64_str("42"), Some(42));
    assert_eq!(parse_u64_str(""), None);
    assert_eq!(parse_u64_str("42x"), None);
    assert_eq!(parse_u64_str("18446744073709551615"), Some(u64::MAX));
    assert_eq!(parse_u64_str("18446744073709551616"), None);
}
