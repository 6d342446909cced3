//! The file watcher's decisions: the settle delay, the processed-path set
//! that keeps any path from being handed to the callback twice, the
//! heartbeat test, and the recency test of the polling fallback. The kernel
//! subscription, the timers and the channel live outside.

use vstd::prelude::*;
use vstd::string::StringExecFns;
use crate::text::str_eq;

verus! {

/// Timing parameters of the robust watcher.
#[derive(Debug, Clone)]
pub struct WatcherConfig {
    /// How often to check that the native watcher is still alive (seconds).
    pub heartbeat_interval_secs: u64,
    /// How long without events before the watcher counts as dead (seconds).
    pub heartbeat_timeout_secs: u64,
    /// How often the polling fallback scans the folders (seconds).
    pub poll_interval_secs: u64,
    /// How long to let a new file settle before processing (milliseconds).
    pub file_processing_delay_ms: u64,
}

impl Default for WatcherConfig {
    /// A minute between heartbeats, five minutes of silence before recovery,
    /// two minutes between fallback polls, and half a second of settle time.
    fn default() -> (r: WatcherConfig)
        ensures
            r.heartbeat_interval_secs == 60,
            r.heartbeat_timeout_secs == 300,
            r.poll_interval_secs == 120,
            r.file_processing_delay_ms == 500,
    {
        WatcherConfig {
            heartbeat_interval_secs: 60,
            heartbeat_timeout_secs: 300,
            poll_interval_secs: 120,
            file_processing_delay_ms: 500,
        }
    }
}

/// Counters describing a watcher run.
#[derive(Debug, Clone, Default)]
pub struct WatcherStats {
    pub events_received: u64,
    pub replays_detected: u64,
    pub errors_recovered: u64,
    pub restarts: u64,
    pub poll_scans: u64,
    pub poll_finds: u64,
}

/// The settle delay before a newly seen replay file is processed.
pub fn get_file_processing_delay_ms() -> (r: u64)
    ensures
        r == 500,
{
    500
}

/// Relies on `std::time::SystemTime::now`: the seconds since the epoch, or
/// zero should the clock stand before it.
#[verifier::external_body]
pub fn current_timestamp() -> u64 {
    std::time::SystemTime::now().duration_since(std::time::SystemTime::UNIX_EPOCH).map(
        |d| d.as_secs(),
    ).unwrap_or(0)
}

/// The paths already handed to the callback, from any of the watcher's three
/// event sources.
#[derive(Debug)]
pub struct ProcessedPaths {
    pub paths: Vec<String>,
}

/// One test-and-mark step over a set of seen paths: report whether the path
/// was new, and remember it either way.
pub open spec fn mark_model(s: Set<Seq<char>>, p: Seq<char>) -> (bool, Set<Seq<char>>) {
    (!s.contains(p), s.insert(p))
}

impl ProcessedPaths {
    /// The set of paths seen so far.
    pub open spec fn seen(&self) -> Set<Seq<char>> {
        self.paths@.map_values(|s: String| s@).to_set()
    }

    pub fn new() -> (r: ProcessedPaths)
        ensures
            r.seen() == Set::<Seq<char>>::empty(),
    {
        let r = ProcessedPaths { paths: Vec::new() };
        proof {
            assert(r.paths@.map_values(|s: String| s@) =~= Seq::<Seq<char>>::empty());
            assert(r.seen() =~= Set::<Seq<char>>::empty());
        }
        r
    }

    pub fn contains(&self, path: &str) -> (r: bool)
        ensures
            r == self.seen().contains(path@),
    {
        let ghost m = self.paths@.map_values(|s: String| s@);
        let mut i: usize = 0;
        while i < self.paths.len()
            invariant
                m == self.paths@.map_values(|s: String| s@),
                i <= self.paths@.len(),
                forall|j: int| 0 <= j < i ==> m[j] != path@,
            decreases self.paths@.len() - i,
        {
            if str_eq(self.paths[i].as_str(), path) {
                proof {
                    assert(m[i as int] == path@);
                    assert(m.to_set().contains(path@));
                }
                return true;
            }
            i += 1;
        }
        proof {
            if m.to_set().contains(path@) {
                let j = choose|j: int| 0 <= j < m.len() && m[j] == path@;
                assert(false);
            }
        }
        false
    }

    /// Report whether the path is new and remember it: the heart of the
    /// exactly-once guarantee across the native, heartbeat and polling
    /// sources.
    pub fn check_and_mark(&mut self, path: &str) -> (r: bool)
        ensures
            (r, final(self).seen()) == mark_model(old(self).seen(), path@),
    {
        let seen_before = self.contains(path);
        if !seen_before {
            let ghost m0 = self.paths@.map_values(|s: String| s@);
            let mut p = String::new();
            p.append(path);
            self.paths.push(p);
            proof {
                assert(self.paths@.map_values(|s: String| s@) =~= m0.push(path@));
                assert(m0.push(path@).to_set() =~= m0.to_set().insert(path@)) by {
                    assert forall|x: Seq<char>|
                        m0.push(path@).to_set().contains(x) implies m0.to_set().insert(
                        path@,
                    ).contains(x) by {
                        let j = choose|j: int|
                            0 <= j < m0.push(path@).len() && m0.push(path@)[j] == x;
                        if j < m0.len() {
                            assert(m0[j] == x);
                        }
                    }
                    assert forall|x: Seq<char>|
                        m0.to_set().insert(path@).contains(x) implies m0.push(
                        path@,
                    ).to_set().contains(x) by {
                        if x == path@ {
                            assert(m0.push(path@)[m0.len() as int] == x);
                        } else {
                            let j = choose|j: int| 0 <= j < m0.len() && m0[j] == x;
                            assert(m0.push(path@)[j] == x);
                        }
                    }
                }
            }
            true
        } else {
            proof {
                assert(old(self).seen().insert(path@) =~= old(self).seen());
            }
            false
        }
    }
}

/// Law: a path reaches the callback at most once. The first test-and-mark of
/// a path reports it new and records it; every later test-and-mark of that
/// path — whatever other paths were marked in between — reports it seen, and
/// marking never forgets a path.
pub proof fn lemma_path_processed_once(s: Set<Seq<char>>, p: Seq<char>, q: Seq<char>)
    ensures
        mark_model(s, p).0 == !s.contains(p),
        mark_model(s, p).1.contains(p),
        !mark_model(mark_model(s, p).1, p).0,
        s.contains(p) ==> mark_model(s, q).1.contains(p),
{
}

/// Whether the heartbeat finds the native watcher silent for longer than the
/// timeout: the elapsed time is measured saturating at zero.
pub fn heartbeat_should_recover(now: u64, last_event: u64, timeout_secs: u64) -> (r: bool)
    ensures
        r == ((if now >= last_event {
            now - last_event
        } else {
            0int
        }) > timeout_secs),
{
    let elapsed = if now >= last_event {
        now - last_event
    } else {
        0
    };
    elapsed > timeout_secs
}

/// Whether the polling fallback reports a found file: only unprocessed files
/// modified within the poll interval plus a grace of thirty seconds.
pub fn poll_should_report(already_processed: bool, age_secs: u64, poll_interval_secs: u64) -> (
    r: bool)
    requires
        poll_interval_secs <= u64::MAX - 30,
    ensures
        r == (!already_processed && age_secs < poll_interval_secs + 30),
{
    !already_processed && age_secs < poll_interval_secs + 30
}

} // verus!
