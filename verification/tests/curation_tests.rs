use egorec::curation::{build_ego_curate_args, resolve_curation_file};

#[test]
fn cli_args_workspace_before_subcommand() {
    let args = build_ego_curate_args("/tmp/ws", "label", "ego-qc", None, None);
    assert_eq!(args[0], "-m");
    assert_eq!(args[1], "ego_curate");
    assert_eq!(args[2], "--workspace");
    assert_eq!(args[3], "/tmp/ws");
    assert_eq!(args[4], "label");
    assert_eq!(args.len(), 5, "label should NOT get --ego-qc");
}

#[test]
fn cli_args_ego_qc_only_for_applicable_stages() {
    for stage in &["qc", "intervals", "proxies", "segments"] {
        let args = build_ego_curate_args("/tmp/ws", stage, "/usr/bin/ego-qc", None, None);
        assert!(args.contains(&"--ego-qc".to_string()), "{} should include --ego-qc", stage);
        let idx = args.iter().position(|a| a == "--ego-qc").unwrap();
        assert_eq!(args[idx + 1], "/usr/bin/ego-qc");
        let stage_idx = args.iter().position(|a| a == *stage).unwrap();
        assert!(idx > stage_idx, "--ego-qc must be after stage name for {}", stage);
    }
    for stage in &["label", "cluster", "inventory", "stage", "publish", "materialize"] {
        let args = build_ego_curate_args("/tmp/ws", stage, "ego-qc", None, None);
        assert!(!args.contains(&"--ego-qc".to_string()), "{} should NOT include --ego-qc", stage);
    }
}

#[test]
fn cli_args_source_prefix_after_stage() {
    let args = build_ego_curate_args("/tmp/ws", "stage", "ego-qc", Some("my-prefix"), None);
    let stage_idx = args.iter().position(|a| a == "stage").unwrap();
    let prefix_idx = args.iter().position(|a| a == "--source-prefix").unwrap();
    assert!(prefix_idx > stage_idx, "--source-prefix must be after stage name");
    assert_eq!(args[prefix_idx + 1], "my-prefix");
}

#[test]
fn cli_args_no_qc_flag_name_collision() {
    let args = build_ego_curate_args("/tmp/ws", "qc", "/path/to/ego-qc", None, None);
    assert!(!args.contains(&"--qc".to_string()), "should use --ego-qc, not --qc");
    assert!(args.contains(&"--ego-qc".to_string()));
}

#[test]
fn cli_args_full_order() {
    let args = build_ego_curate_args("/w", "segments", "q", Some("src"), Some("pub"));
    assert_eq!(
        args,
        vec!["-m", "ego_curate", "--workspace", "/w", "segments", "--ego-qc", "q", "--source-prefix", "src",
            "--publish-prefix", "pub"]
    );
}

#[test]
fn curation_files_by_data_type() {
    assert_eq!(resolve_curation_file("episodes").unwrap(), "curation/v1/episodes.jsonl");
    assert_eq!(resolve_curation_file("buckets").unwrap(), "curation/v1/bucket_map.json");
    assert_eq!(resolve_curation_file("overrides").unwrap(), "curation/v1/review_overrides.json");
    assert_eq!(resolve_curation_file("workspace").unwrap(), "curation/v1/workspace.json");
    assert_eq!(resolve_curation_file("nope").unwrap_err(), "Unknown curation data type: nope");
}

#[test]
fn jsonl_records_are_the_nonblank_lines() {
    assert_eq!(egorec::curation::count_jsonl_lines("{\"a\":1}\n\n  \n{\"b\":2}\r\n\t\n{\"c\":3}"), 3);
    assert_eq!(egorec::curation::count_jsonl_lines(""), 0);
    assert_eq!(egorec::curation::count_jsonl_lines("x"), 1);
    assert_eq!(egorec::curation::count_jsonl_lines("\u{3000}\n \u{a0}\n"), 0);
    assert_eq!(egorec::curation::count_jsonl_lines("a\n\nb\n"), 2);
}
