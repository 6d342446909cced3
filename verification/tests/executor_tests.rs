use ladder_legends_uploader::executor::{UploadResult, is_duplicate_error, make_tracked_replay,
    apply_upload_success, apply_upload_failure, mark_uploading};
use ladder_legends_uploader::manager::{UploadManagerState, UploadStatus};
use ladder_legends_uploader::scanner::PreparedReplay;
use ladder_legends_uploader::tracker::{ReplayTracker, ReplayFileInfo};

fn fresh_state() -> UploadManagerState {
    UploadManagerState {
        total_uploaded: 0,
        current_upload: None,
        pending_count: 1,
        is_watching: false,
    }
}

fn prepared(hash: &str) -> PreparedReplay {
    PreparedReplay {
        hash: hash.to_string(),
        file_info: ReplayFileInfo {
            path: "/Accounts/1-S2-1-802768/game.SC2Replay".to_string(),
            filename: "game.SC2Replay".to_string(),
            filesize: 2048,
            modified_time: 77,
        },
        game_type: "1v1-ladder".to_string(),
        player_name: "Lotus".to_string(),
    }
}

#[test]
fn test_upload_result() {
    let result = UploadResult { uploaded_count: 5 };
    assert_eq!(result.uploaded_count, 5);
}

#[test]
fn test_is_duplicate_error_variants() {
    assert!(is_duplicate_error("Upload failed 409 Conflict: already there"));
    assert!(is_duplicate_error("Upload failed: duplicate (REPLAY_DUPLICATE)"));
    assert!(is_duplicate_error("This replay has already been uploaded"));
    assert!(!is_duplicate_error("Network error: connection refused"));
    assert!(!is_duplicate_error("Server error 500: boom"));
}

#[test]
fn test_make_tracked_replay_fields() {
    let p = prepared("abc");
    let t = make_tracked_replay(&p, 1_700_000_000);
    assert_eq!(t.hash, "abc");
    assert_eq!(t.filename, "game.SC2Replay");
    assert_eq!(t.filesize, 2048);
    assert_eq!(t.uploaded_at, 1_700_000_000);
    assert_eq!(t.filepath, "/Accounts/1-S2-1-802768/game.SC2Replay");
}

#[test]
fn test_apply_upload_success_updates_tracker_and_state() {
    let mut tracker = ReplayTracker::new();
    let mut state = fresh_state();
    let t = make_tracked_replay(&prepared("abc"), 10);
    apply_upload_success(&mut tracker, &mut state, t);
    assert_eq!(tracker.total_uploaded, 1);
    assert!(tracker.is_uploaded("abc"));
    assert_eq!(state.total_uploaded, 1);
    assert_eq!(state.pending_count, 0);
    assert!(matches!(state.current_upload, Some(UploadStatus::Completed { .. })));
}

#[test]
fn test_duplicate_answer_counts_exactly_once() {
    // The server rejects the upload as a duplicate; the executor records it
    // as success, and the counter grows by exactly one even if the duplicate
    // answer is handled twice.
    let mut tracker = ReplayTracker::new();
    let mut state = fresh_state();
    state.pending_count = 2;

    let answer = "Upload failed: This replay has already been uploaded (REPLAY_DUPLICATE)";
    assert!(is_duplicate_error(answer));

    let t = make_tracked_replay(&prepared("abc"), 10);
    apply_upload_success(&mut tracker, &mut state, t);
    assert_eq!(tracker.total_uploaded, 1);

    let t_again = make_tracked_replay(&prepared("abc"), 11);
    apply_upload_success(&mut tracker, &mut state, t_again);
    assert_eq!(tracker.total_uploaded, 1, "A second add of the same hash changes nothing");
    assert!(tracker.is_uploaded("abc"));
    assert_eq!(state.pending_count, 0);
}

#[test]
fn test_apply_upload_failure_sets_error_state() {
    let mut state = fresh_state();
    mark_uploading(&mut state, "game.SC2Replay");
    assert!(matches!(state.current_upload, Some(UploadStatus::Uploading { .. })));

    apply_upload_failure(&mut state, "game.SC2Replay", "Network error: timed out");
    assert_eq!(state.pending_count, 0);
    match state.current_upload {
        Some(UploadStatus::Failed { ref filename, ref error }) => {
            assert_eq!(filename, "game.SC2Replay");
            assert_eq!(error, "Network error: timed out");
        },
        _ => panic!("expected a failed status"),
    }
}
