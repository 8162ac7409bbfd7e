use cntryl_stress::harness::{
    augment_unit_source, benchmark_count, build_build_args, build_passthrough_args,
    clean_suite_name, list_benchmarks, manifest_package_name, select_benchmarks,
    split_whitespace_words, sort_names, workspace_dir_name, workspace_manifest, BenchmarkEntry,
    Orchestrator, StressArgs, StressFile, StressRunnerOptions,
};

fn entry(name: &str, group: &str, ignored: bool) -> BenchmarkEntry {
    BenchmarkEntry {
        name: name.to_string(),
        group_path: group.to_string(),
        ignored,
    }
}

#[test]
fn discovery_orders_units_lexically() {
    let orchestrator = Orchestrator::new(
        vec!["c".to_string(), "a".to_string(), "b".to_string()],
        true,
    );
    assert_eq!(
        orchestrator.units,
        vec!["a".to_string(), "b".to_string(), "c".to_string()]
    );
    assert_eq!(orchestrator.next_unit(), Some(0));
}

#[test]
fn build_failure_runs_zero_units_and_exits_nonzero() {
    let mut orchestrator = Orchestrator::new(
        vec!["a".to_string(), "b".to_string()],
        true,
    );
    orchestrator.on_build_finished(false);
    assert_eq!(orchestrator.next_unit(), None);
    assert_eq!(orchestrator.unit_results.len(), 0);
    assert_eq!(orchestrator.exit_code(), 1);
}

#[test]
fn fail_fast_stops_after_first_failure() {
    let mut orchestrator = Orchestrator::new(
        vec!["a".to_string(), "b".to_string(), "c".to_string()],
        true,
    );
    orchestrator.on_build_finished(true);
    assert_eq!(orchestrator.next_unit(), Some(0));
    orchestrator.on_unit_finished(true);
    assert_eq!(orchestrator.next_unit(), Some(1));
    orchestrator.on_unit_finished(false);
    assert_eq!(orchestrator.next_unit(), None);
    assert_eq!(orchestrator.exit_code(), 1);
}

#[test]
fn all_units_succeed_exits_zero() {
    let mut orchestrator = Orchestrator::new(vec!["a".to_string()], false);
    orchestrator.on_build_finished(true);
    orchestrator.on_unit_finished(true);
    assert_eq!(orchestrator.next_unit(), None);
    assert_eq!(orchestrator.exit_code(), 0);
}

#[test]
fn sorting_names_keeps_contents() {
    let mut names = vec!["pear".to_string(), "apple".to_string(), "pear".to_string()];
    sort_names(&mut names);
    assert_eq!(
        names,
        vec!["apple".to_string(), "pear".to_string(), "pear".to_string()]
    );
}

#[test]
fn selection_respects_ignored_and_workload() {
    let entries = vec![
        entry("fast_insert", "db", false),
        entry("slow_scan", "db", true),
        entry("encode", "codecs", false),
    ];
    let default_opts = StressRunnerOptions::new();
    assert_eq!(select_benchmarks(&entries, &default_opts), vec![0, 2]);

    let with_ignored = StressRunnerOptions::new().include_ignored(true);
    assert_eq!(select_benchmarks(&entries, &with_ignored), vec![0, 1, 2]);

    let filtered = StressRunnerOptions::new().include_ignored(true).workload("db*".to_string());
    assert_eq!(select_benchmarks(&entries, &filtered), vec![0, 1]);
}

#[test]
fn registry_listing_preserves_names() {
    let entries = vec![entry("one", "g", false), entry("two", "g", true)];
    assert_eq!(benchmark_count(&entries), 2);
    assert_eq!(list_benchmarks(&entries), vec!["one".to_string(), "two".to_string()]);
}

#[test]
fn passthrough_only_forwards_non_defaults() {
    let defaults = StressArgs::new();
    assert!(build_passthrough_args(&defaults).is_empty());

    let mut args = StressArgs::new();
    args.workload = Some("db*".to_string());
    args.runs = 5;
    args.verbose = true;
    let forwarded = build_passthrough_args(&args);
    assert_eq!(
        forwarded,
        vec![
            "--workload".to_string(),
            "db*".to_string(),
            "--runs".to_string(),
            "5".to_string(),
            "--verbose".to_string(),
        ]
    );
}

#[test]
fn suite_name_strips_build_hash() {
    assert_eq!(clean_suite_name("stress_demo-0123456789abcdef"), "stress-demo");
    assert_eq!(clean_suite_name("stress_demo-0123456789abcdeg"), "stress-demo-0123456789abcdeg");
    assert_eq!(clean_suite_name("stress_demo"), "stress-demo");
}

#[test]
fn unit_binary_names_carry_a_fixed_prefix() {
    let unit = StressFile::from_stem("fsync".to_string());
    assert_eq!(unit.stem, "fsync");
    assert_eq!(unit.binary_name, "stress_fsync");
}

#[test]
fn missing_unit_is_skipped_not_failed() {
    let mut orchestrator = Orchestrator::new(
        vec!["a".to_string(), "b".to_string(), "c".to_string()],
        true,
    );
    orchestrator.on_build_finished(true);
    assert_eq!(orchestrator.next_unit(), Some(0));
    orchestrator.on_unit_missing();
    assert_eq!(orchestrator.next_unit(), Some(1));
    orchestrator.on_unit_finished(true);
    orchestrator.on_unit_missing();
    assert_eq!(orchestrator.next_unit(), None);
    assert_eq!(orchestrator.exit_code(), 0);
    assert!(!orchestrator.keep_workspace());
}

#[test]
fn workspace_is_kept_on_failure() {
    let mut orchestrator = Orchestrator::new(vec!["a".to_string()], false);
    orchestrator.on_build_finished(true);
    orchestrator.on_unit_finished(false);
    assert_eq!(orchestrator.exit_code(), 1);
    assert!(orchestrator.keep_workspace());
}

#[test]
fn build_invocation_carries_every_non_default_flag() {
    let mut args = StressArgs::new();
    args.package = Some("demo".to_string());
    args.cargo_args = Some("  --locked   --offline ".to_string());
    let units = vec!["a".to_string(), "b".to_string()];
    let built = build_build_args(&args, &units, "ws/Cargo.toml", "ws/target");
    assert_eq!(
        built,
        vec![
            "build".to_string(),
            "--release".to_string(),
            "--manifest-path".to_string(),
            "ws/Cargo.toml".to_string(),
            "--package".to_string(),
            "demo".to_string(),
            "--target-dir".to_string(),
            "ws/target".to_string(),
            "--bin".to_string(),
            "a".to_string(),
            "--bin".to_string(),
            "b".to_string(),
            "--locked".to_string(),
            "--offline".to_string(),
        ]
    );
    let mut dev_args = StressArgs::new();
    dev_args.dev = true;
    let dev_built = build_build_args(&dev_args, &vec![], "m", "t");
    assert!(!dev_built.contains(&"--release".to_string()));
}

#[test]
fn whitespace_words_drop_empty_pieces() {
    assert_eq!(
        split_whitespace_words("  one  two\tthree\n"),
        vec!["one".to_string(), "two".to_string(), "three".to_string()]
    );
    assert!(split_whitespace_words("   ").is_empty());
}

#[test]
fn workspace_names_and_manifest_text() {
    assert_eq!(workspace_dir_name(17), "run-17");
    let own = workspace_manifest("cntryl-stress", "/repo", 3);
    assert!(own.contains("name = \"cargo-stress-temp-3\""));
    assert!(own.contains("cntryl-stress = { path = \"/repo\" }"));
    assert!(!own.contains("0.1"));
    let host = workspace_manifest("demo", "/proj", 4);
    assert!(host.contains("cntryl-stress = \"0.1\""));
    assert!(host.contains("demo = { path = \"/proj\" }"));
}

#[test]
fn unit_sources_gain_an_entry_point_once() {
    let plain = "fn helper() {}\n";
    let augmented = augment_unit_source(plain);
    assert!(augmented.starts_with(plain));
    assert!(augmented.contains("stress_main!"));
    assert_eq!(augment_unit_source(&augmented), augmented);
}

#[test]
fn package_name_extraction_from_manifest() {
    let text = "[package]\nname = \"my-proj\"\nversion = \"0.1.0\"\n";
    assert_eq!(manifest_package_name(text), Some("my-proj".to_string()));
    let spaced = "  name   =   \"padded\"  \nother = 1\n";
    assert_eq!(manifest_package_name(spaced), Some("padded".to_string()));
    assert_eq!(manifest_package_name("version = \"0.1.0\"\n"), None);
}
