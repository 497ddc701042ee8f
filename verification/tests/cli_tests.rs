use nesso::bench::{all_integrity_ok, all_runs, database_files, nominal_tasks, num_runs, pop_integrity, push_integrity, tasks_per_thread, thread_counts};
use nesso::cli::{parse_args, usage, CliCommand, CliError, CliOptions, Flag};
use nesso::storage::group_commit::{GroupCommitConfig, SyncMode};

fn parse(args: &[&str]) -> Result<CliCommand, CliError> {
    let mut all = vec!["nesso".to_string()];
    all.extend(args.iter().map(|s| s.to_string()));
    parse_args(&all, 4)
}

fn options(args: &[&str]) -> CliOptions {
    match parse(args) {
        Ok(CliCommand::Serve(options)) => options,
        other => panic!("unexpected result {:?}", other),
    }
}

#[test]
fn test_defaults() {
    for args in [&[][..], &["serve", "-x", "--unknown"][..]] {
        let o = options(args);
        assert_eq!(o.http_workers, 4);
        assert_eq!(o.batch_window_ms, 2);
        assert_eq!(o.max_batch_size, 64);
        assert_eq!(o.idle_commit_threshold_us, 0);
        assert_eq!(o.sync_mode, SyncMode::Standard);
        assert_eq!(o.data_dir, None);
        assert_eq!(o.bind_addr, "127.0.0.1:8080");
        assert_eq!(o.group_commit_config(), GroupCommitConfig::default());
    }
    assert!(matches!(parse_args(&vec![], 4), Ok(CliCommand::Serve(_))));
}

#[test]
fn test_all_options() {
    let o = options(&[
        "--http-workers", "8", "--batch-window-ms", "15", "--max-batch-size", "32",
        "--idle-commit-threshold-us", "500", "--sync-mode", "full", "--data-dir", "/tmp/x",
        "--bind", "0.0.0.0:9000",
    ]);
    assert_eq!(o.http_workers, 8);
    assert_eq!(o.data_dir.as_deref(), Some("/tmp/x"));
    assert_eq!(o.bind_addr, "0.0.0.0:9000");
    assert_eq!(
        o.group_commit_config(),
        GroupCommitConfig {
            batch_window: 15_000_000,
            max_batch_size: 32,
            idle_commit_threshold: 500_000,
            sync_mode: SyncMode::FullHardware,
        }
    );
}

#[test]
fn test_later_options_replace_earlier_ones() {
    let o = options(&["--http-workers", "8", "stray", "--http-workers", "+2"]);
    assert_eq!(o.http_workers, 2);
}

#[test]
fn test_sync_modes() {
    for (name, mode) in [
        ("standard", SyncMode::Standard), ("POSIX", SyncMode::Standard),
        ("Full", SyncMode::FullHardware), ("HARDWARE", SyncMode::FullHardware),
    ] {
        assert_eq!(options(&["--sync-mode", name]).sync_mode, mode);
    }
    let error = parse(&["--sync-mode", "FAST"]).unwrap_err();
    assert_eq!(
        error.message().unwrap(),
        "Error: unknown sync mode 'fast'. Valid values: standard, full"
    );
}

#[test]
fn test_missing_values() {
    for flag in [
        "--http-workers", "--batch-window-ms", "--max-batch-size", "--idle-commit-threshold-us",
        "--sync-mode", "--data-dir", "--bind",
    ] {
        let error = parse(&["--data-dir", "x", flag]).unwrap_err();
        assert_eq!(error.message().unwrap(), format!("Error: missing value for {}", flag));
        assert_eq!(Flag::of_name(flag).unwrap().name(), flag);
    }
    assert!(Flag::of_name("--other").is_none());
}

#[test]
fn test_values_that_are_no_numbers() {
    for value in ["", "x", "-1", "1.5", "+", "18446744073709551616", " 1"] {
        match parse(&["--batch-window-ms", value]) {
            Err(CliError::InvalidNumber(text)) => {
                assert_eq!(text, value);
                assert!(value.parse::<u64>().is_err());
            }
            other => panic!("unexpected result {:?}", other),
        }
    }
    assert_eq!(options(&["--batch-window-ms", "18446744073709551615"]).batch_window_ms, u64::MAX);
    assert!(parse(&["--http-workers", "x"]).unwrap_err().message().is_none());
}

#[test]
fn test_help() {
    assert!(matches!(parse(&["--help"]), Ok(CliCommand::Help)));
    assert!(matches!(parse(&["--bind", "a", "-h", "--http-workers"]), Ok(CliCommand::Help)));
    assert!(matches!(parse(&["--http-workers", "x", "-h"]), Err(_)));
    // What follows an option is its value.
    assert_eq!(options(&["--bind", "--help"]).bind_addr, "--help");
    let text = usage(12);
    assert!(text.starts_with("Usage: nesso [OPTIONS]\nOptions:\n  --http-workers <N>"));
    assert!(text.contains("available CPU cores, 12)\n"));
    assert!(text.ends_with("(default: 127.0.0.1:8080)\n"));
    assert_eq!(text.lines().count(), 9);
}

#[test]
fn test_benchmark_plan() {
    assert_eq!(thread_counts(true), vec![1]);
    assert_eq!(thread_counts(false), vec![1, 4, 16]);
    assert_eq!((num_runs(true), num_runs(false)), (2, 6));
    assert_eq!((nominal_tasks(true, true), nominal_tasks(false, true)), (100, 1_000));
    assert_eq!(nominal_tasks(false, false), 10_000);
    assert_eq!(tasks_per_thread(10_000, 16), 625);

    let runs = all_runs(false, &thread_counts(false), num_runs(false));
    assert_eq!(runs.len(), 36);
    assert_eq!(runs[0].sqlite_file(), "bench_sqlite_false_1_10000_r0.db");
    assert_eq!(runs[0].nesso_dir(), "bench_nesso_ip_false_1_10000_r0");
    assert!(runs[0].is_warmup());
    assert_eq!(runs[7].queue_name(), "bench_q_false_4_10000_r1");
    assert!(!runs[7].is_warmup());
    assert_eq!(runs[35].sqlite_file(), "bench_sqlite_true_16_1000_r5.db");
    assert_eq!(database_files("a.db"), vec!["a.db", "a.db-wal", "a.db-shm"]);
}

#[test]
fn test_benchmark_integrity() {
    assert!(push_integrity(5, 5));
    assert!(!push_integrity(4, 5));
    assert!(pop_integrity(3, 0, 10, 7));
    assert!(!pop_integrity(3, 1, 10, 7));
    assert!(!pop_integrity(2, 0, 10, 7));
    assert!(pop_integrity(0, 0, 5, 7));
    assert!(all_integrity_ok(&vec![true, true]));
    assert!(!all_integrity_ok(&vec![true, false]));
    assert!(!all_integrity_ok(&vec![]));
}
