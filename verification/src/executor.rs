//! The executor's decisions: recognise the server's duplicate answer, build
//! the tracker entry for an accepted upload, and keep the shared manager
//! state in step. Sending the file itself happens outside.

use vstd::prelude::*;
use vstd::string::StringExecFns;
use crate::manager::{UploadManagerState, UploadStatus};
use crate::scanner::PreparedReplay;
use crate::text::{contains_sub, chars_vec, chars_contain};
use crate::tracker::{ReplayTracker, TrackedReplay, add_model};

verus! {

/// What executing the uploads achieved.
#[derive(Debug)]
pub struct UploadResult {
    pub uploaded_count: usize,
}

/// The server refused the upload only because it already holds the replay:
/// a conflict status, the duplicate error code, or its message. Such an
/// answer counts as success.
pub open spec fn duplicate_error_spec(e: Seq<char>) -> bool {
    contains_sub(e, "409"@) || contains_sub(e, "REPLAY_DUPLICATE"@) || contains_sub(
        e,
        "already been uploaded"@,
    )
}

pub fn is_duplicate_error(error: &str) -> (r: bool)
    ensures
        r == duplicate_error_spec(error@),
{
    let hay = chars_vec(error);
    let code = chars_vec("409");
    if chars_contain(&hay, &code) {
        return true;
    }
    let dup = chars_vec("REPLAY_DUPLICATE");
    if chars_contain(&hay, &dup) {
        return true;
    }
    let msg = chars_vec("already been uploaded");
    chars_contain(&hay, &msg)
}

/// The tracker entry recording an accepted upload of this prepared replay.
pub fn make_tracked_replay(prepared: &PreparedReplay, now: u64) -> (r: TrackedReplay)
    ensures
        r.hash@ == prepared.hash@,
        r.filename@ == prepared.file_info.filename@,
        r.filesize == prepared.file_info.filesize,
        r.uploaded_at == now,
        r.filepath@ == prepared.file_info.path@,
{
    TrackedReplay {
        hash: prepared.hash.clone(),
        filename: prepared.file_info.filename.clone(),
        filesize: prepared.file_info.filesize,
        uploaded_at: now,
        filepath: prepared.file_info.path.clone(),
    }
}

/// Record an accepted upload — the server's duplicate answer included — in
/// the tracker and the shared state: the entry is added (once, by hash), the
/// state's counter mirrors the tracker's, the current upload completes and
/// one fewer upload is pending.
pub fn apply_upload_success(
    tracker: &mut ReplayTracker,
    state: &mut UploadManagerState,
    replay: TrackedReplay,
)
    requires
        old(tracker).wf(),
    ensures
        final(tracker).wf(),
        final(tracker)@.entries == add_model(old(tracker)@.entries, replay@),
        final(tracker)@.manifest_version == old(tracker)@.manifest_version,
        final(state).total_uploaded == final(tracker).total_uploaded,
        final(state).current_upload matches Some(u) && u matches UploadStatus::Completed {
            filename,
        } && filename@ == replay.filename@,
        final(state).pending_count == if old(state).pending_count > 0 {
            old(state).pending_count - 1
        } else {
            0int
        },
        final(state).is_watching == old(state).is_watching,
{
    let filename = replay.filename.clone();
    tracker.add_replay(replay);
    state.total_uploaded = tracker.total_uploaded;
    state.current_upload = Some(UploadStatus::Completed { filename });
    if state.pending_count > 0 {
        state.pending_count = state.pending_count - 1;
    }
}

/// Record a failed upload in the shared state: the current upload is marked
/// failed with the error, and one fewer upload is pending. The tracker is
/// left untouched; the caller surfaces the error.
pub fn apply_upload_failure(state: &mut UploadManagerState, filename: &str, error: &str)
    ensures
        final(state).total_uploaded == old(state).total_uploaded,
        final(state).current_upload matches Some(u) && u matches UploadStatus::Failed {
            filename: f,
            error: e,
        } && f@ == filename@ && e@ == error@,
        final(state).pending_count == if old(state).pending_count > 0 {
            old(state).pending_count - 1
        } else {
            0int
        },
        final(state).is_watching == old(state).is_watching,
{
    let mut f = String::new();
    f.append(filename);
    let mut e = String::new();
    e.append(error);
    state.current_upload = Some(UploadStatus::Failed { filename: f, error: e });
    if state.pending_count > 0 {
        state.pending_count = state.pending_count - 1;
    }
}

/// Mark the given file as the one being uploaded.
pub fn mark_uploading(state: &mut UploadManagerState, filename: &str)
    ensures
        final(state).total_uploaded == old(state).total_uploaded,
        final(state).current_upload matches Some(u) && u matches UploadStatus::Uploading {
            filename: f,
        } && f@ == filename@,
        final(state).pending_count == old(state).pending_count,
        final(state).is_watching == old(state).is_watching,
{
    let mut f = String::new();
    f.append(filename);
    state.current_upload = Some(UploadStatus::Uploading { filename: f });
}

} // verus!
