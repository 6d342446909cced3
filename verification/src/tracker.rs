//! The local manifest of uploaded replays: a hash-keyed collection of
//! tracked replays with an upload counter and a server manifest version.

use vstd::prelude::*;
use sha2::Digest;
use crate::text::str_eq;

verus! {

/// One uploaded replay as remembered by the local manifest.
#[derive(Debug, Clone, PartialEq)]
pub struct TrackedReplay {
    /// SHA-256 of the file contents, as 64 hex characters.
    pub hash: String,
    pub filename: String,
    pub filesize: u64,
    /// Upload time, seconds since the epoch.
    pub uploaded_at: u64,
    pub filepath: String,
}

/// The mathematical value of a tracked replay.
pub struct TrackedReplayModel {
    pub hash: Seq<char>,
    pub filename: Seq<char>,
    pub filesize: u64,
    pub uploaded_at: u64,
    pub filepath: Seq<char>,
}

impl View for TrackedReplay {
    type V = TrackedReplayModel;

    open spec fn view(&self) -> TrackedReplayModel {
        TrackedReplayModel {
            hash: self.hash@,
            filename: self.filename@,
            filesize: self.filesize,
            uploaded_at: self.uploaded_at,
            filepath: self.filepath@,
        }
    }
}

/// The mathematical value of the whole tracker: the entries in insertion
/// order and the manifest version. The upload counter is not part of the
/// model; well-formedness ties it to the number of entries.
pub struct TrackerModel {
    pub entries: Seq<TrackedReplayModel>,
    pub manifest_version: Seq<char>,
}

/// Some entry carries the given hash.
pub open spec fn contains_hash(entries: Seq<TrackedReplayModel>, hash: Seq<char>) -> bool {
    exists|i: int| 0 <= i < entries.len() && #[trigger] entries[i].hash == hash
}

/// No two entries share a hash.
pub open spec fn hashes_unique(entries: Seq<TrackedReplayModel>) -> bool {
    forall|i: int, j: int|
        0 <= i < j < entries.len() ==> #[trigger] entries[i].hash != #[trigger] entries[j].hash
}

/// The first entry with the given hash, if any.
pub open spec fn lookup_model(entries: Seq<TrackedReplayModel>, hash: Seq<char>) -> Option<
    TrackedReplayModel,
>
    decreases entries.len(),
{
    if entries.len() == 0 {
        None
    } else if entries[0].hash == hash {
        Some(entries[0])
    } else {
        lookup_model(entries.drop_first(), hash)
    }
}

/// Adding a replay: a no-op if its hash is already present, else an append.
pub open spec fn add_model(
    entries: Seq<TrackedReplayModel>,
    r: TrackedReplayModel,
) -> Seq<TrackedReplayModel> {
    if contains_hash(entries, r.hash) {
        entries
    } else {
        entries.push(r)
    }
}

/// The local manifest of uploaded replays.
#[derive(Debug, Clone)]
pub struct ReplayTracker {
    pub replays: Vec<TrackedReplay>,
    /// Total count of uploaded replays; equals the number of entries.
    pub total_uploaded: usize,
    /// Last known server manifest version; empty until synced.
    pub manifest_version: String,
}

impl View for ReplayTracker {
    type V = TrackerModel;

    open spec fn view(&self) -> TrackerModel {
        TrackerModel {
            entries: self.replays@.map_values(|r: TrackedReplay| r@),
            manifest_version: self.manifest_version@,
        }
    }
}

impl ReplayTracker {
    /// The counter equals the number of entries and no hash repeats.
    pub open spec fn wf(&self) -> bool {
        &&& self.total_uploaded == self@.entries.len()
        &&& hashes_unique(self@.entries)
    }

    /// Create a new empty tracker.
    pub fn new() -> (r: ReplayTracker)
        ensures
            r.wf(),
            r@.entries.len() == 0,
            r@.manifest_version.len() == 0,
            r.total_uploaded == 0,
    {
        let r = ReplayTracker {
            replays: Vec::new(),
            total_uploaded: 0,
            manifest_version: String::new(),
        };
        proof {
            assert(r@.entries =~= Seq::<TrackedReplayModel>::empty());
        }
        r
    }

    /// Remove every entry and zero the counter, but keep the manifest
    /// version: it is re-synced with the server afterwards.
    pub fn clear(&mut self)
        ensures
            final(self).wf(),
            final(self)@.entries.len() == 0,
            final(self)@.manifest_version == old(self)@.manifest_version,
            final(self).total_uploaded == 0,
    {
        self.replays.clear();
        self.total_uploaded = 0;
        proof {
            assert(self@.entries =~= Seq::<TrackedReplayModel>::empty());
        }
    }

    pub fn get_manifest_version(&self) -> (r: &str)
        ensures
            r@ == self@.manifest_version,
    {
        self.manifest_version.as_str()
    }

    pub fn set_manifest_version(&mut self, version: String)
        ensures
            final(self)@.manifest_version == version@,
            final(self)@.entries == old(self)@.entries,
            final(self).total_uploaded == old(self).total_uploaded,
            old(self).wf() ==> final(self).wf(),
    {
        self.manifest_version = version;
    }

    /// Whether a replay with this hash has been uploaded.
    pub fn is_uploaded(&self, hash: &str) -> (r: bool)
        ensures
            r == contains_hash(self@.entries, hash@),
    {
        let mut i: usize = 0;
        while i < self.replays.len()
            invariant
                i <= self.replays@.len(),
                forall|j: int| 0 <= j < i ==> #[trigger] self@.entries[j].hash != hash@,
            decreases self.replays@.len() - i,
        {
            if str_eq(self.replays[i].hash.as_str(), hash) {
                proof {
                    assert(self@.entries[i as int].hash == hash@);
                }
                return true;
            }
            i += 1;
        }
        false
    }

    /// Whether some entry has this filename and size: a cheap duplicate test
    /// made before hashing.
    pub fn exists_by_metadata(&self, filename: &str, filesize: u64) -> (r: bool)
        ensures
            r == exists|i: int|
                0 <= i < self@.entries.len() && #[trigger] self@.entries[i].filename == filename@
                    && self@.entries[i].filesize == filesize,
    {
        let mut i: usize = 0;
        while i < self.replays.len()
            invariant
                i <= self.replays@.len(),
                forall|j: int|
                    0 <= j < i ==> !(#[trigger] self@.entries[j].filename == filename@
                        && self@.entries[j].filesize == filesize),
            decreases self.replays@.len() - i,
        {
            if self.replays[i].filesize == filesize && str_eq(
                self.replays[i].filename.as_str(),
                filename,
            ) {
                proof {
                    assert(self@.entries[i as int].filename == filename@ && self@.entries[
                        i as int
                    ].filesize == filesize);
                }
                return true;
            }
            i += 1;
        }
        false
    }

    /// Add a replay; a second add of the same hash changes nothing.
    pub fn add_replay(&mut self, replay: TrackedReplay)
        requires
            old(self).wf(),
        ensures
            final(self).wf(),
            final(self)@.entries == add_model(old(self)@.entries, replay@),
            final(self)@.manifest_version == old(self)@.manifest_version,
            final(self).total_uploaded == final(self)@.entries.len(),
    {
        if !self.is_uploaded(replay.hash.as_str()) {
            let ghost old_entries = self@.entries;
            self.replays.push(replay);
            self.total_uploaded = self.replays.len();
            proof {
                assert(self@.entries =~= old_entries.push(replay@));
            }
        }
    }

    /// All tracked replays, in insertion order.
    pub fn get_all(&self) -> (r: Vec<&TrackedReplay>)
        ensures
            r@.len() == self@.entries.len(),
            forall|i: int| 0 <= i < r@.len() ==> #[trigger] r@[i]@ == self@.entries[i],
    {
        let mut r: Vec<&TrackedReplay> = Vec::new();
        let mut i: usize = 0;
        while i < self.replays.len()
            invariant
                i <= self.replays@.len(),
                r@.len() == i,
                forall|j: int| 0 <= j < i ==> #[trigger] r@[j]@ == self@.entries[j],
            decreases self.replays@.len() - i,
        {
            r.push(&self.replays[i]);
            i += 1;
        }
        r
    }

    /// The tracked replay with this hash, if any.
    pub fn get_by_hash(&self, hash: &str) -> (r: Option<&TrackedReplay>)
        ensures
            match r {
                Some(t) => lookup_model(self@.entries, hash@) == Some(t@),
                None => lookup_model(self@.entries, hash@) is None,
            },
    {
        let mut i: usize = 0;
        proof {
            assert(self@.entries.skip(0) =~= self@.entries);
        }
        while i < self.replays.len()
            invariant
                i <= self.replays@.len(),
                lookup_model(self@.entries, hash@) == lookup_model(
                    self@.entries.skip(i as int),
                    hash@,
                ),
                forall|j: int| 0 <= j < i ==> #[trigger] self@.entries[j].hash != hash@,
            decreases self.replays@.len() - i,
        {
            if str_eq(self.replays[i].hash.as_str(), hash) {
                proof {
                    assert(self@.entries.skip(i as int)[0] == self@.entries[i as int]);
                }
                return Some(&self.replays[i]);
            }
            proof {
                assert(self@.entries.skip(i as int)[0] == self@.entries[i as int]);
                assert(self@.entries.skip(i as int).drop_first() =~= self@.entries.skip(i + 1));
            }
            i += 1;
        }
        proof {
            assert(self@.entries.skip(i as int).len() == 0);
        }
        None
    }

    /// SHA-256 of the given file contents, as 64 lowercase hex characters.
    /// Equal contents give equal strings.
    pub fn calculate_hash(contents: &[u8]) -> (r: String)
        ensures
            r@ == sha256_hex_of(contents@),
            r@.len() == 64,
    {
        sha256_hex(contents)
    }
}

/// A replay file as found on disk: an immutable snapshot of its path, name,
/// size and modification time (seconds since the epoch).
#[derive(Debug, Clone)]
pub struct ReplayFileInfo {
    pub path: String,
    pub filename: String,
    pub filesize: u64,
    pub modified_time: u64,
}

/// The hex form of the SHA-256 digest of a byte sequence; a function of the
/// bytes alone.
pub uninterp spec fn sha256_hex_of(bytes: Seq<u8>) -> Seq<char>;

/// Relies on `sha2::Sha256::digest` and its `LowerHex` rendering: the digest
/// is 32 bytes, a pure function of the input, and formats as 64 lowercase
/// hex characters.
#[verifier::external_body]
fn sha256_hex(bytes: &[u8]) -> (r: String)
    ensures
        r@ == sha256_hex_of(bytes@),
        r@.len() == 64,
{
    format!("{:x}", sha2::Sha256::digest(bytes))
}

/// Law: after adding a replay twice, lookup by its hash finds exactly that
/// replay, and the entry count has grown by exactly one over the tracker
/// without it.
pub proof fn lemma_add_twice(entries: Seq<TrackedReplayModel>, x: TrackedReplayModel)
    requires
        !contains_hash(entries, x.hash),
    ensures
        add_model(add_model(entries, x), x) == add_model(entries, x),
        lookup_model(add_model(add_model(entries, x), x), x.hash) == Some(x),
        add_model(add_model(entries, x), x).len() == entries.len() + 1,
{
    let once = entries.push(x);
    assert(add_model(entries, x) == once);
    assert(once[entries.len() as int].hash == x.hash);
    assert(contains_hash(once, x.hash));
    assert(add_model(once, x) == once);
    lemma_lookup_finds_pushed(entries, x);
}

/// Pushing an entry with a fresh hash makes lookup of that hash find it.
proof fn lemma_lookup_finds_pushed(entries: Seq<TrackedReplayModel>, x: TrackedReplayModel)
    requires
        !contains_hash(entries, x.hash),
    ensures
        lookup_model(entries.push(x), x.hash) == Some(x),
    decreases entries.len(),
{
    let p = entries.push(x);
    if entries.len() == 0 {
        assert(p[0] == x);
    } else {
        assert(entries[0].hash != x.hash);
        assert(p[0] == entries[0]);
        assert(p.drop_first() =~= entries.drop_first().push(x));
        assert(!contains_hash(entries.drop_first(), x.hash)) by {
            if contains_hash(entries.drop_first(), x.hash) {
                let i = choose|i: int|
                    0 <= i < entries.drop_first().len() && #[trigger] entries.drop_first()[i].hash
                        == x.hash;
                assert(entries[i + 1].hash == x.hash);
            }
        }
        lemma_lookup_finds_pushed(entries.drop_first(), x);
    }
}

} // verus!
