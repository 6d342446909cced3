use ladder_legends_uploader::watcher::{WatcherConfig, WatcherStats, ProcessedPaths,
    current_timestamp, heartbeat_should_recover, poll_should_report};
use ladder_legends_uploader::replay_path::is_sc2_replay;

#[test]
fn test_current_timestamp() {
    let ts = current_timestamp();
    assert!(ts > 0);
    // Should be after 2020
    assert!(ts > 1577836800);
}

#[test]
fn test_watcher_config_default() {
    let config = WatcherConfig::default();
    assert_eq!(config.heartbeat_interval_secs, 60);
    assert_eq!(config.heartbeat_timeout_secs, 300);
    assert_eq!(config.poll_interval_secs, 120);
}

#[test]
fn test_watcher_stats_start_at_zero() {
    let stats = WatcherStats::default();
    assert_eq!(stats.events_received, 0);
    assert_eq!(stats.replays_detected, 0);
    assert_eq!(stats.errors_recovered, 0);
}

#[test]
fn test_processed_paths_exactly_once() {
    // A single file-creation event reaches the callback exactly once, from
    // whichever source it arrives.
    let mut seen = ProcessedPaths::new();
    let path = "/replays/new.SC2Replay";
    assert!(!seen.contains(path));
    assert!(seen.check_and_mark(path), "First arrival is new");
    assert!(seen.contains(path));
    assert!(!seen.check_and_mark(path), "A repeat from the poller is not re-emitted");
    assert!(seen.check_and_mark("/replays/other.SC2Replay"));
    assert!(!seen.check_and_mark(path), "Still seen after other paths were marked");
}

#[test]
fn test_heartbeat_should_recover() {
    assert!(!heartbeat_should_recover(1000, 900, 300), "Quiet for 100s of 300s: alive");
    assert!(heartbeat_should_recover(1400, 1000, 300), "Quiet for 400s: dead");
    assert!(!heartbeat_should_recover(100, 900, 300), "A clock step backwards saturates to zero");
}

#[test]
fn test_poll_should_report() {
    assert!(poll_should_report(false, 60, 120), "Fresh unseen file within the window");
    assert!(!poll_should_report(true, 60, 120), "Already processed files stay quiet");
    assert!(!poll_should_report(false, 151, 120), "Stale files are left for the first scan");
    assert!(poll_should_report(false, 149, 120), "The window is the interval plus thirty seconds");
}

#[test]
fn test_buffer_overflow_recovery_flow() {
    // The native watcher lost events to a buffer overflow; the heartbeat
    // notices the silence, a recovery poll finds the missed replay, and the
    // processor calls back exactly once.
    let config = WatcherConfig::default();
    let last_event: u64 = 10_000;
    let now: u64 = last_event + config.heartbeat_timeout_secs + 1;
    assert!(heartbeat_should_recover(now, last_event, config.heartbeat_timeout_secs));

    let missed = "/replays/missed.SC2Replay";
    assert!(is_sc2_replay(missed));

    let mut seen = ProcessedPaths::new();
    assert!(seen.check_and_mark(missed), "The recovered path is emitted once");
    assert!(!seen.check_and_mark(missed), "A later poll of the same path stays silent");
}
