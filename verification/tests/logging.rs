use dedup::logging::{is_rotated_log, log_dir, prune_old_logs, LogEntry, MAX_LOG_FILES};

fn entry(name: &str, mtime: i128) -> LogEntry {
    LogEntry { name: name.to_string(), is_file: true, mtime }
}

fn april(days: i128) -> Vec<LogEntry> {
    (0..days)
        .map(|i| entry(&format!("dedup.log.2026-04-{:02}", i + 1), i * 3600))
        .collect()
}

#[test]
fn is_rotated_log_matches_dated_files() {
    assert!(is_rotated_log("dedup.log.2026-04-21"));
    assert!(is_rotated_log("dedup.log.2026-01-01"));
}

#[test]
fn is_rotated_log_rejects_unrelated_files() {
    assert!(!is_rotated_log("dedup.log"));
    assert!(!is_rotated_log("other.log.2026-04-21"));
    assert!(!is_rotated_log("dedup.logs"));
    assert!(!is_rotated_log("README.md"));
}

#[test]
fn prune_keeps_newest_n_by_mtime() {
    let logs = april(10);
    let removed = prune_old_logs(&logs, MAX_LOG_FILES);
    assert_eq!(removed.len(), 3);
    assert_eq!(removed, vec![0, 1, 2]);
    assert_eq!(logs.len() - removed.len(), MAX_LOG_FILES);
}

#[test]
fn prune_is_noop_when_under_limit() {
    let removed = prune_old_logs(&april(3), MAX_LOG_FILES);
    assert_eq!(removed.len(), 0);
}

#[test]
fn prune_ignores_unrelated_files() {
    let mut logs = april(10);
    logs.push(entry("unrelated.txt", 0));
    let removed = prune_old_logs(&logs, MAX_LOG_FILES);
    assert!(!removed.contains(&10));
    assert_eq!(removed.len(), 3);
}

#[test]
fn prune_on_missing_dir_returns_zero() {
    assert_eq!(prune_old_logs(&Vec::new(), MAX_LOG_FILES).len(), 0);
}

#[test]
fn prune_retains_seven_most_recent() {
    let mut logs = april(10);
    logs.reverse();
    let removed = prune_old_logs(&logs, MAX_LOG_FILES);
    assert_eq!(removed, vec![7, 8, 9]);
}

#[test]
fn directories_are_never_pruned() {
    let mut logs = april(8);
    logs[0].is_file = false;
    assert!(prune_old_logs(&logs, MAX_LOG_FILES).is_empty());
}

#[test]
fn logs_live_in_the_config_directory() {
    assert_eq!(
        log_dir(None, Some("/home/alice")).as_deref(),
        Some("/home/alice/.config/dedup/logs")
    );
    assert_eq!(log_dir(Some("/xdg"), Some("/home/alice")).as_deref(), Some("/xdg/dedup/logs"));
    assert_eq!(log_dir(None, None), None);
}
