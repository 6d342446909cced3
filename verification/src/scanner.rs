//! The scan pipeline's decisions: order candidates by recency, filter them by
//! game type, by the user's presence and against the local tracker, and turn
//! the server's answer into the final upload list. Reading directories,
//! parsing archives and hashing files happen outside; this module decides
//! what those results mean.

use vstd::prelude::*;
use vstd::relations::sorted_by;
use vstd::multiset::Multiset;
use vstd::string::StringExecFns;
use crate::api::HashInfo;
use crate::game::{GameType, PlayerInfo};
use crate::manager::{ReplayMapEntry, lookup_entry, lookup_entry_exec};
use crate::inference::name_in;
use crate::tracker::{ReplayTracker, ReplayFileInfo, contains_hash};
use crate::text::str_eq;

verus! {

/// A replay that passed every filter and is ready for upload.
#[derive(Debug, Clone)]
pub struct PreparedReplay {
    pub hash: String,
    pub file_info: ReplayFileInfo,
    pub game_type: String,
    pub player_name: String,
}

/// What a scan found, with its telemetry counters.
#[derive(Debug)]
pub struct ScanResult {
    pub prepared_replays: Vec<PreparedReplay>,
    pub total_found: usize,
    pub local_duplicate_count: usize,
    pub server_duplicate_count: usize,
}

/// What parsing one replay file yielded.
#[derive(Debug, Clone)]
pub struct ParsedReplay {
    pub game_type: GameType,
    pub players: Vec<PlayerInfo>,
}

/// Descending order on modification times.
pub open spec fn newer_first() -> spec_fn(ReplayFileInfo, ReplayFileInfo) -> bool {
    |a: ReplayFileInfo, b: ReplayFileInfo| a.modified_time >= b.modified_time
}

/// Order the found replays newest first and keep at most `limit` of them.
/// The result is the prefix of a descending reordering of the input.
pub fn get_recent_replays(replays: Vec<ReplayFileInfo>, limit: usize) -> (r: Vec<ReplayFileInfo>)
    ensures
        r@.len() == if replays@.len() < limit {
            replays@.len() as int
        } else {
            limit as int
        },
        sorted_by(r@, newer_first()),
        exists|s: Seq<ReplayFileInfo>|
            s.to_multiset() == replays@.to_multiset() && sorted_by(s, newer_first()) && r@ == (
            #[trigger] s.take(r@.len() as int)),
{
    let ghost orig = replays@;
    let mut rest = replays;
    let mut sorted: Vec<ReplayFileInfo> = Vec::new();
    proof {
        broadcast use vstd::seq_lib::group_to_multiset_ensures;

        assert(sorted@.to_multiset().add(rest@.to_multiset()) =~= orig.to_multiset());
    }
    while rest.len() > 0
        invariant
            sorted@.to_multiset().add(rest@.to_multiset()) == orig.to_multiset(),
            sorted_by(sorted@, newer_first()),
            forall|a: int, b: int|
                0 <= a < sorted@.len() && 0 <= b < rest@.len() ==> (#[trigger] sorted@[a]).modified_time
                    >= (#[trigger] rest@[b]).modified_time,
        decreases rest@.len(),
    {
        // Find the newest remaining replay.
        let mut best: usize = 0;
        let mut k: usize = 1;
        while k < rest.len()
            invariant
                best < rest@.len(),
                k <= rest@.len(),
                forall|b: int|
                    0 <= b < k ==> rest@[best as int].modified_time >= (
                    #[trigger] rest@[b]).modified_time,
            decreases rest@.len() - k,
        {
            if rest[k].modified_time > rest[best].modified_time {
                best = k;
            }
            k += 1;
        }
        let ghost rest0 = rest@;
        let ghost sorted0 = sorted@;
        let x = rest.remove(best);
        sorted.push(x);
        proof {
            broadcast use vstd::seq_lib::group_to_multiset_ensures;

            assert(rest@ == rest0.remove(best as int));
            assert(rest0.remove(best as int).to_multiset() =~= rest0.to_multiset().remove(x));
            assert(sorted@.to_multiset() =~= sorted0.to_multiset().insert(x));
            assert(rest0.to_multiset().count(x) > 0);
            assert(sorted@.to_multiset().add(rest@.to_multiset()) =~= orig.to_multiset());
            assert forall|a: int, b: int|
                0 <= a < sorted@.len() && 0 <= b < rest@.len() implies (
            #[trigger] sorted@[a]).modified_time >= (#[trigger] rest@[b]).modified_time by {
                if a < sorted0.len() {
                    if b < best {
                        assert(rest@[b] == rest0[b]);
                    } else {
                        assert(rest@[b] == rest0[b + 1]);
                    }
                } else {
                    assert(sorted@[a] == x);
                    if b < best {
                        assert(rest@[b] == rest0[b]);
                    } else {
                        assert(rest@[b] == rest0[b + 1]);
                    }
                }
            }
            assert forall|a: int, b: int|
                0 <= a < b < sorted@.len() implies newer_first()(sorted@[a], sorted@[b]) by {
                if b == sorted@.len() - 1 {
                    assert(rest0[best as int] == x);
                    assert(sorted@[a] == sorted0[a]);
                } else {
                    assert(newer_first()(sorted0[a], sorted0[b]));
                }
            }
        }
    }
    proof {
        broadcast use vstd::seq_lib::group_to_multiset_ensures;

        assert(rest@.to_multiset() =~= Multiset::<ReplayFileInfo>::empty());
        assert(sorted@.to_multiset().add(Multiset::<ReplayFileInfo>::empty())
            =~= sorted@.to_multiset());
        assert(sorted@.to_multiset() == orig.to_multiset());
    }
    let ghost full = sorted@;
    let keep = if sorted.len() < limit {
        sorted.len()
    } else {
        limit
    };
    sorted.truncate(keep);
    proof {
        assert(sorted@ =~= full.take(keep as int));
        assert(full.to_multiset().len() == full.len());
        assert(orig.to_multiset().len() == orig.len());
        assert forall|a: int, b: int|
            0 <= a < b < sorted@.len() implies newer_first()(sorted@[a], sorted@[b]) by {
            assert(newer_first()(full[a], full[b]));
        }
    }
    sorted
}

/// The first active player whose name is among the user's names, if any.
pub open spec fn find_user_spec(players: Seq<PlayerInfo>, names: Seq<String>) -> Option<Seq<char>>
    decreases players.len(),
{
    if players.len() == 0 {
        None
    } else if !players[0].is_observer && name_in(names, players[0].name@) {
        Some(players[0].name@)
    } else {
        find_user_spec(players.drop_first(), names)
    }
}

/// Find which of the user's names appears in this game as an active player.
pub fn find_user_in_game(players: &Vec<PlayerInfo>, user_names: &Vec<String>) -> (r: Option<
    String,
>)
    ensures
        match r {
            Some(n) => find_user_spec(players@, user_names@) == Some(n@),
            None => find_user_spec(players@, user_names@) is None,
        },
{
    let mut i: usize = 0;
    proof {
        assert(players@.skip(0) =~= players@);
    }
    while i < players.len()
        invariant
            i <= players@.len(),
            find_user_spec(players@, user_names@) == find_user_spec(
                players@.skip(i as int),
                user_names@,
            ),
        decreases players@.len() - i,
    {
        proof {
            assert(players@.skip(i as int)[0] == players@[i as int]);
            assert(players@.skip(i as int).drop_first() =~= players@.skip(i + 1));
        }
        if !players[i].is_observer && contains_string(user_names, players[i].name.as_str()) {
            return Some(players[i].name.clone());
        }
        i += 1;
    }
    None
}

fn contains_string(names: &Vec<String>, nm: &str) -> (r: bool)
    ensures
        r == name_in(names@, nm@),
{
    let mut i: usize = 0;
    while i < names.len()
        invariant
            i <= names@.len(),
            forall|j: int| 0 <= j < i ==> (#[trigger] names@[j])@ != nm@,
        decreases names@.len() - i,
    {
        if str_eq(names[i].as_str(), nm) {
            return true;
        }
        i += 1;
    }
    false
}

/// One scanned candidate: the file and what parsing it yielded, `None` where
/// the archive could not be read.
pub type Candidate = (ReplayFileInfo, Option<ParsedReplay>);

/// An entry already in the tracker with this name and size.
pub open spec fn metadata_dup(t: ReplayTracker, info: ReplayFileInfo) -> bool {
    exists|i: int|
        0 <= i < t@.entries.len() && #[trigger] t@.entries[i].filename == info.filename@
            && t@.entries[i].filesize == info.filesize
}

/// A candidate survives the pre-hash filters: it parsed, its game type is
/// uploadable, one of the user's names plays in it, and the tracker holds no
/// entry with its name and size.
pub open spec fn keeps_candidate(c: Candidate, t: ReplayTracker, names: Seq<String>) -> bool {
    match c.1 {
        None => false,
        Some(p) => p.game_type.is_uploadable() && find_user_spec(p.players@, names) is Some
            && !metadata_dup(t, c.0),
    }
}

pub open spec fn parse_failed(c: Candidate) -> bool {
    c.1 is None
}

pub open spec fn not_competitive(c: Candidate) -> bool {
    match c.1 {
        None => false,
        Some(p) => !p.game_type.is_uploadable(),
    }
}

pub open spec fn no_active_user(c: Candidate, names: Seq<String>) -> bool {
    match c.1 {
        None => false,
        Some(p) => p.game_type.is_uploadable() && find_user_spec(p.players@, names) is None,
    }
}

pub open spec fn metadata_dropped(c: Candidate, t: ReplayTracker, names: Seq<String>) -> bool {
    match c.1 {
        None => false,
        Some(p) => p.game_type.is_uploadable() && find_user_spec(p.players@, names) is Some
            && metadata_dup(t, c.0),
    }
}

/// What the pre-hash filters kept and how many candidates each filter
/// dropped.
#[derive(Debug)]
pub struct FilterOutcome {
    /// The files still in play, each with its game type tag and the matched
    /// player name; these are the ones worth hashing.
    pub to_hash: Vec<(ReplayFileInfo, String, String)>,
    pub parse_failed_count: usize,
    pub non_competitive_count: usize,
    pub observer_game_count: usize,
    pub local_duplicate_count: usize,
}

/// Run the pre-hash filters over the parsed candidates. A candidate whose
/// parse failed is dropped and counted, and counts toward nothing else; only
/// uploadable games in which one of the user's names actively plays, and
/// which the tracker does not already hold by name and size, go on to
/// hashing.
pub fn filter_candidates(
    candidates: &Vec<Candidate>,
    tracker: &ReplayTracker,
    player_names: &Vec<String>,
) -> (r: FilterOutcome)
    ensures
        r.to_hash@.len() == candidates@.filter(
            |c: Candidate| keeps_candidate(c, *tracker, player_names@),
        ).len(),
        forall|k: int|
            0 <= k < r.to_hash@.len() ==> {
                let kept = candidates@.filter(
                    |c: Candidate| keeps_candidate(c, *tracker, player_names@),
                )[k];
                (#[trigger] r.to_hash@[k]).0 == kept.0 && r.to_hash@[k].1@
                    == kept.1->Some_0.game_type.tag_of() && find_user_spec(
                    kept.1->Some_0.players@,
                    player_names@,
                ) == Some(r.to_hash@[k].2@)
            },
        r.parse_failed_count == candidates@.filter(|c: Candidate| parse_failed(c)).len(),
        r.non_competitive_count == candidates@.filter(|c: Candidate| not_competitive(c)).len(),
        r.observer_game_count == candidates@.filter(
            |c: Candidate| no_active_user(c, player_names@),
        ).len(),
        r.local_duplicate_count == candidates@.filter(
            |c: Candidate| metadata_dropped(c, *tracker, player_names@),
        ).len(),
{
    let ghost keep_pred = |c: Candidate| keeps_candidate(c, *tracker, player_names@);
    let ghost fail_pred = |c: Candidate| parse_failed(c);
    let ghost nc_pred = |c: Candidate| not_competitive(c);
    let ghost obs_pred = |c: Candidate| no_active_user(c, player_names@);
    let ghost dup_pred = |c: Candidate| metadata_dropped(c, *tracker, player_names@);
    let mut to_hash: Vec<(ReplayFileInfo, String, String)> = Vec::new();
    let mut parse_failed_count: usize = 0;
    let mut non_competitive_count: usize = 0;
    let mut observer_game_count: usize = 0;
    let mut local_duplicate_count: usize = 0;
    let mut i: usize = 0;
    proof {
        reveal_with_fuel(Seq::<Candidate>::filter, 2);
        assert(candidates@.take(0) =~= Seq::<Candidate>::empty());
    }
    while i < candidates.len()
        invariant
            i <= candidates@.len(),
            keep_pred == (|c: Candidate| keeps_candidate(c, *tracker, player_names@)),
            fail_pred == (|c: Candidate| parse_failed(c)),
            nc_pred == (|c: Candidate| not_competitive(c)),
            obs_pred == (|c: Candidate| no_active_user(c, player_names@)),
            dup_pred == (|c: Candidate| metadata_dropped(c, *tracker, player_names@)),
            to_hash@.len() == candidates@.take(i as int).filter(keep_pred).len(),
            forall|k: int|
                0 <= k < to_hash@.len() ==> {
                    let kept = candidates@.take(i as int).filter(keep_pred)[k];
                    (#[trigger] to_hash@[k]).0 == kept.0 && to_hash@[k].1@
                        == kept.1->Some_0.game_type.tag_of() && find_user_spec(
                        kept.1->Some_0.players@,
                        player_names@,
                    ) == Some(to_hash@[k].2@)
                },
            parse_failed_count == candidates@.take(i as int).filter(fail_pred).len(),
            non_competitive_count == candidates@.take(i as int).filter(nc_pred).len(),
            observer_game_count == candidates@.take(i as int).filter(obs_pred).len(),
            local_duplicate_count == candidates@.take(i as int).filter(dup_pred).len(),
            parse_failed_count <= i,
            non_competitive_count <= i,
            observer_game_count <= i,
            local_duplicate_count <= i,
        decreases candidates@.len() - i,
    {
        let ghost pre = candidates@.take(i as int);
        let ghost pre1 = candidates@.take(i + 1);
        let ghost ci = candidates@[i as int];
        proof {
            reveal_with_fuel(Seq::<Candidate>::filter, 2);
            assert(pre1.drop_last() =~= pre);
            assert(pre1.last() == ci);
            pre.lemma_filter_len(keep_pred);
            assert(pre1.filter(keep_pred) == if keep_pred(ci) {
                pre.filter(keep_pred).push(ci)
            } else {
                pre.filter(keep_pred)
            });
            assert(pre1.filter(fail_pred) == if fail_pred(ci) {
                pre.filter(fail_pred).push(ci)
            } else {
                pre.filter(fail_pred)
            });
            assert(pre1.filter(nc_pred) == if nc_pred(ci) {
                pre.filter(nc_pred).push(ci)
            } else {
                pre.filter(nc_pred)
            });
            assert(pre1.filter(obs_pred) == if obs_pred(ci) {
                pre.filter(obs_pred).push(ci)
            } else {
                pre.filter(obs_pred)
            });
            assert(pre1.filter(dup_pred) == if dup_pred(ci) {
                pre.filter(dup_pred).push(ci)
            } else {
                pre.filter(dup_pred)
            });
            pre.lemma_filter_len(fail_pred);
            pre.lemma_filter_len(nc_pred);
            pre.lemma_filter_len(obs_pred);
            pre.lemma_filter_len(dup_pred);
        }
        let c = &candidates[i];
        match &c.1 {
            None => {
                parse_failed_count += 1;
            },
            Some(parsed) => {
                if !parsed.game_type.should_upload() {
                    non_competitive_count += 1;
                } else {
                    match find_user_in_game(&parsed.players, player_names) {
                        None => {
                            observer_game_count += 1;
                        },
                        Some(player) => {
                            if tracker.exists_by_metadata(
                                c.0.filename.as_str(),
                                c.0.filesize,
                            ) {
                                local_duplicate_count += 1;
                            } else {
                                let tag = parsed.game_type.as_str();
                                let mut tag_string = String::new();
                                tag_string.append(tag);
                                to_hash.push((clone_file_info(&c.0), tag_string, player));
                            }
                        },
                    }
                }
            },
        }
        i += 1;
    }
    proof {
        assert(candidates@.take(candidates@.len() as int) =~= candidates@);
    }
    FilterOutcome {
        to_hash,
        parse_failed_count,
        non_competitive_count,
        observer_game_count,
        local_duplicate_count,
    }
}

/// Copy a file snapshot.
pub fn clone_file_info(f: &ReplayFileInfo) -> (r: ReplayFileInfo)
    ensures
        r == *f,
{
    ReplayFileInfo {
        path: f.path.clone(),
        filename: f.filename.clone(),
        filesize: f.filesize,
        modified_time: f.modified_time,
    }
}

/// A hashed file survives if its hash is not yet in the tracker.
pub open spec fn keeps_hashed(h: (ReplayFileInfo, String, String, String), t: ReplayTracker) -> bool {
    !contains_hash(t@.entries, h.3@)
}

/// What the hash-level filter kept: the batch to send to the server and the
/// map from hash to file and key used afterwards.
#[derive(Debug)]
pub struct HashedOutcome {
    pub hash_infos: Vec<HashInfo>,
    pub replay_map: Vec<ReplayMapEntry>,
    pub local_duplicate_count: usize,
}

/// Drop the hashed files the tracker already holds by hash; the rest form
/// the server batch and the lookup map, in order.
pub fn dedup_hashed(hashed: &Vec<(ReplayFileInfo, String, String, String)>, tracker: &ReplayTracker) -> (
    r: HashedOutcome)
    ensures
        r.hash_infos@.len() == hashed@.filter(
            |h: (ReplayFileInfo, String, String, String)| keeps_hashed(h, *tracker),
        ).len(),
        r.replay_map@.len() == r.hash_infos@.len(),
        forall|k: int|
            0 <= k < r.hash_infos@.len() ==> {
                let kept = hashed@.filter(
                    |h: (ReplayFileInfo, String, String, String)| keeps_hashed(h, *tracker),
                )[k];
                #[trigger] r.replay_map@[k] == (kept.3, (kept.0, kept.1, kept.2))
            },
        forall|k: int|
            0 <= k < r.hash_infos@.len() ==> #[trigger] r.hash_infos@[k] == (HashInfo {
                hash: r.replay_map@[k].0,
                filename: r.replay_map@[k].1.0.filename,
                filesize: r.replay_map@[k].1.0.filesize,
            }),
        r.local_duplicate_count == hashed@.len() - r.hash_infos@.len(),
{
    let ghost keep_pred = |h: (ReplayFileInfo, String, String, String)| keeps_hashed(h, *tracker);
    let mut hash_infos: Vec<HashInfo> = Vec::new();
    let mut replay_map: Vec<ReplayMapEntry> = Vec::new();
    let mut local_duplicate_count: usize = 0;
    let mut i: usize = 0;
    proof {
        reveal_with_fuel(Seq::<(ReplayFileInfo, String, String, String)>::filter, 2);
        assert(hashed@.take(0) =~= Seq::<(ReplayFileInfo, String, String, String)>::empty());
    }
    while i < hashed.len()
        invariant
            i <= hashed@.len(),
            keep_pred == (|h: (ReplayFileInfo, String, String, String)| keeps_hashed(h, *tracker)),
            hash_infos@.len() == hashed@.take(i as int).filter(keep_pred).len(),
            replay_map@.len() == hash_infos@.len(),
            forall|k: int|
                0 <= k < hash_infos@.len() ==> {
                    let kept = hashed@.take(i as int).filter(keep_pred)[k];
                    #[trigger] replay_map@[k] == (kept.3, (kept.0, kept.1, kept.2))
                },
            forall|k: int|
                0 <= k < hash_infos@.len() ==> #[trigger] hash_infos@[k] == (HashInfo {
                    hash: replay_map@[k].0,
                    filename: replay_map@[k].1.0.filename,
                    filesize: replay_map@[k].1.0.filesize,
                }),
            local_duplicate_count == i - hash_infos@.len(),
        decreases hashed@.len() - i,
    {
        let ghost pre = hashed@.take(i as int);
        let ghost pre1 = hashed@.take(i + 1);
        let ghost hi = hashed@[i as int];
        proof {
            reveal_with_fuel(Seq::<(ReplayFileInfo, String, String, String)>::filter, 2);
            assert(pre1.drop_last() =~= pre);
            assert(pre1.last() == hi);
            pre.lemma_filter_len(keep_pred);
            assert(pre1.filter(keep_pred) == if keep_pred(hi) {
                pre.filter(keep_pred).push(hi)
            } else {
                pre.filter(keep_pred)
            });
        }
        let ghost his0 = hash_infos@;
        let ghost rm0 = replay_map@;
        let h = &hashed[i];
        if tracker.is_uploaded(h.3.as_str()) {
            local_duplicate_count += 1;
        } else {
            hash_infos.push(
                HashInfo {
                    hash: h.3.clone(),
                    filename: h.0.filename.clone(),
                    filesize: h.0.filesize,
                },
            );
            replay_map.push((h.3.clone(), (clone_file_info(&h.0), h.1.clone(), h.2.clone())));
            proof {
                assert(hash_infos@.last() == (HashInfo {
                    hash: hi.3,
                    filename: hi.0.filename,
                    filesize: hi.0.filesize,
                }));
                assert(replay_map@.last() == (hi.3, (hi.0, hi.1, hi.2)));
                assert(pre1.filter(keep_pred)[pre1.filter(keep_pred).len() - 1] == hi);
            }
        }
        proof {
            assert forall|k: int|
                0 <= k < hash_infos@.len() implies {
                    let kept = pre1.filter(keep_pred)[k];
                    #[trigger] replay_map@[k] == (kept.3, (kept.0, kept.1, kept.2))
                } by {
                if k < his0.len() {
                    assert(replay_map@[k] == rm0[k]);
                    assert(pre1.filter(keep_pred)[k] == pre.filter(keep_pred)[k]);
                } else {
                    assert(pre1.filter(keep_pred)[k] == hi);
                }
            }
            assert forall|k: int|
                0 <= k < hash_infos@.len() implies #[trigger] hash_infos@[k] == (HashInfo {
                    hash: replay_map@[k].0,
                    filename: replay_map@[k].1.0.filename,
                    filesize: replay_map@[k].1.0.filesize,
                }) by {
                if k < his0.len() {
                    assert(hash_infos@[k] == his0[k]);
                    assert(replay_map@[k] == rm0[k]);
                }
            }
        }
        i += 1;
    }
    proof {
        assert(hashed@.take(hashed@.len() as int) =~= hashed@);
    }
    HashedOutcome { hash_infos, replay_map, local_duplicate_count }
}

/// The upload list the server's answer selects: for each of the first
/// `limit`-many new hashes, the prepared replay its map entry describes.
pub open spec fn selected(m: Seq<ReplayMapEntry>, hs: Seq<String>) -> Seq<PreparedReplay>
    decreases hs.len(),
{
    if hs.len() == 0 {
        Seq::empty()
    } else {
        let rest = selected(m, hs.drop_first());
        match lookup_entry(m, hs[0]@) {
            None => rest,
            Some(e) => seq![
                PreparedReplay {
                    hash: hs[0],
                    file_info: e.0,
                    game_type: e.1,
                    player_name: e.2,
                },
            ] + rest,
        }
    }
}

/// Build the final upload list from the server's new hashes: take the first
/// `limit` of them and keep those the scan prepared. No new hashes means
/// nothing to upload.
pub fn select_new_replays(
    replay_map: &Vec<ReplayMapEntry>,
    new_hashes: &Vec<String>,
    limit: usize,
) -> (r: Vec<PreparedReplay>)
    ensures
        r@ == selected(
            replay_map@,
            new_hashes@.take(
                if new_hashes@.len() < limit {
                    new_hashes@.len() as int
                } else {
                    limit as int
                },
            ),
        ),
        new_hashes@.len() == 0 ==> r@.len() == 0,
{
    let n = if new_hashes.len() < limit {
        new_hashes.len()
    } else {
        limit
    };
    let ghost taken = new_hashes@.take(n as int);
    let mut r: Vec<PreparedReplay> = Vec::new();
    let mut i: usize = 0;
    proof {
        assert(taken.skip(0) =~= taken);
    }
    while i < n
        invariant
            i <= n,
            n <= new_hashes@.len(),
            taken == new_hashes@.take(n as int),
            selected(replay_map@, taken) == r@ + selected(replay_map@, taken.skip(i as int)),
        decreases n - i,
    {
        proof {
            assert(taken.skip(i as int)[0] == taken[i as int]);
            assert(taken[i as int] == new_hashes@[i as int]);
            assert(taken.skip(i as int).drop_first() =~= taken.skip(i + 1));
        }
        let ghost r0 = r@;
        match lookup_entry_exec(replay_map, new_hashes[i].as_str()) {
            None => {},
            Some(e) => {
                r.push(
                    PreparedReplay {
                        hash: new_hashes[i].clone(),
                        file_info: clone_file_info(&e.0),
                        game_type: e.1.clone(),
                        player_name: e.2.clone(),
                    },
                );
                proof {
                    assert(r@.last() == PreparedReplay {
                        hash: taken[i as int],
                        file_info: lookup_entry(replay_map@, taken[i as int]@)->Some_0.0,
                        game_type: lookup_entry(replay_map@, taken[i as int]@)->Some_0.1,
                        player_name: lookup_entry(replay_map@, taken[i as int]@)->Some_0.2,
                    });
                }
            },
        }
        proof {
            match lookup_entry(replay_map@, taken[i as int]@) {
                None => {
                    assert(r@ == r0);
                },
                Some(e) => {
                    assert(r@ + selected(replay_map@, taken.skip(i + 1)) =~= r0 + (seq![
                        PreparedReplay {
                            hash: taken[i as int],
                            file_info: e.0,
                            game_type: e.1,
                            player_name: e.2,
                        },
                    ] + selected(replay_map@, taken.skip(i + 1))));
                },
            }
        }
        i += 1;
    }
    proof {
        assert(taken.skip(n as int).len() == 0);
        assert(r@ + Seq::<PreparedReplay>::empty() =~= r@);
    }
    r
}

} // verus!

