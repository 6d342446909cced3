//! Upload grouping and the manager's shared state: replays are uploaded in
//! batches keyed by game type and player name, in a deterministic order.

use vstd::prelude::*;
use vstd::string::StringExecFns;
use crate::text::{seq_char_lt, str_eq, chars_vec, chars_lt};
use crate::tracker::ReplayFileInfo;

verus! {

/// What the scanner recorded for one hash: the file, the game type tag and
/// the player name to attribute the upload to.
pub type ReplayMapEntry = (String, (ReplayFileInfo, String, String));

/// Status of the replay currently being uploaded.
#[derive(Debug, Clone)]
pub enum UploadStatus {
    Pending { filename: String },
    Uploading { filename: String },
    Completed { filename: String },
    Failed { filename: String, error: String },
}

/// A snapshot of the upload manager's state.
#[derive(Debug, Clone)]
pub struct UploadManagerState {
    pub total_uploaded: usize,
    pub current_upload: Option<UploadStatus>,
    pub pending_count: usize,
    pub is_watching: bool,
}

/// A batch of replays sharing a game type and a player name.
#[derive(Debug, Clone)]
pub struct ReplayGroup {
    pub game_type: String,
    pub player_name: String,
    pub hashes: Vec<String>,
}

/// The first map entry carrying the given hash, if any.
pub open spec fn lookup_entry(m: Seq<ReplayMapEntry>, h: Seq<char>) -> Option<
    (ReplayFileInfo, String, String),
>
    decreases m.len(),
{
    if m.len() == 0 {
        None
    } else if m[0].0@ == h {
        Some(m[0].1)
    } else {
        lookup_entry(m.drop_first(), h)
    }
}

/// The grouping key a hash maps to: its game type tag and player name.
pub open spec fn group_key_of(m: Seq<ReplayMapEntry>, h: Seq<char>) -> Option<
    (Seq<char>, Seq<char>),
> {
    match lookup_entry(m, h) {
        None => None,
        Some(e) => Some((e.1@, e.2@)),
    }
}

/// Strict order on grouping keys: by game type, then by player name.
pub open spec fn key_lt(a: (Seq<char>, Seq<char>), b: (Seq<char>, Seq<char>)) -> bool {
    seq_char_lt(a.0, b.0) || (a.0 == b.0 && seq_char_lt(a.1, b.1))
}

/// The input hashes that map to the given key, in input order.
pub open spec fn hashes_with_key(
    hs: Seq<String>,
    m: Seq<ReplayMapEntry>,
    key: (Seq<char>, Seq<char>),
) -> Seq<Seq<char>> {
    hs.map_values(|h: String| h@).filter(|hh: Seq<char>| group_key_of(m, hh) == Some(key))
}

/// Some input hash maps to the given key.
pub open spec fn key_occurs(
    hs: Seq<String>,
    m: Seq<ReplayMapEntry>,
    key: (Seq<char>, Seq<char>),
) -> bool {
    exists|i: int| 0 <= i < hs.len() && group_key_of(m, (#[trigger] hs[i])@) == Some(key)
}

/// A key stands among a list of keys.
pub open spec fn key_listed(xs: Seq<(String, String)>, key: (Seq<char>, Seq<char>)) -> bool {
    exists|a: int| 0 <= a < xs.len() && ((#[trigger] xs[a]).0@, xs[a].1@) == key
}

/// The key of a built group.
pub open spec fn group_key(g: ReplayGroup) -> (Seq<char>, Seq<char>) {
    (g.game_type@, g.player_name@)
}

pub(crate) fn lookup_entry_exec<'a>(m: &'a Vec<ReplayMapEntry>, h: &str) -> (r: Option<
    &'a (ReplayFileInfo, String, String),
>)
    ensures
        match r {
            Some(e) => lookup_entry(m@, h@) == Some(*e),
            None => lookup_entry(m@, h@) is None,
        },
{
    let mut i: usize = 0;
    proof {
        assert(m@.skip(0) =~= m@);
    }
    while i < m.len()
        invariant
            i <= m@.len(),
            lookup_entry(m@, h@) == lookup_entry(m@.skip(i as int), h@),
        decreases m@.len() - i,
    {
        proof {
            assert(m@.skip(i as int)[0] == m@[i as int]);
            assert(m@.skip(i as int).drop_first() =~= m@.skip(i + 1));
        }
        if str_eq(m[i].0.as_str(), h) {
            return Some(&m[i].1);
        }
        i += 1;
    }
    None
}

/// Whether a key equals the key of `(gt, pn)`.
fn key_eq(gt: &str, pn: &str, k: &(String, String)) -> (r: bool)
    ensures
        r == ((k.0@, k.1@) == (gt@, pn@)),
{
    let g = str_eq(k.0.as_str(), gt);
    let p = str_eq(k.1.as_str(), pn);
    g && p
}

fn key_in(keys: &Vec<(String, String)>, gt: &str, pn: &str) -> (r: bool)
    ensures
        r == exists|i: int|
            0 <= i < keys@.len() && ((#[trigger] keys@[i]).0@, keys@[i].1@) == (gt@, pn@),
{
    let mut i: usize = 0;
    while i < keys.len()
        invariant
            i <= keys@.len(),
            forall|j: int| 0 <= j < i ==> ((#[trigger] keys@[j]).0@, keys@[j].1@) != (gt@, pn@),
        decreases keys@.len() - i,
    {
        if key_eq(gt, pn, &keys[i]) {
            return true;
        }
        i += 1;
    }
    false
}

fn key_pair_lt(a: &(String, String), b: &(String, String)) -> (r: bool)
    ensures
        r == key_lt((a.0@, a.1@), (b.0@, b.1@)),
{
    let a0 = chars_vec(a.0.as_str());
    let b0 = chars_vec(b.0.as_str());
    if chars_lt(&a0, &b0) {
        return true;
    }
    if !str_eq(a.0.as_str(), b.0.as_str()) {
        return false;
    }
    let a1 = chars_vec(a.1.as_str());
    let b1 = chars_vec(b.1.as_str());
    chars_lt(&a1, &b1)
}

/// Group replay hashes by game type and player name. The groups come sorted
/// by game type, then player name; within a group the hashes keep the input
/// order; a hash without a map entry joins no group.
pub fn group_replays_by_type_and_player(hashes: &Vec<String>, replay_map: &Vec<ReplayMapEntry>) -> (
    groups: Vec<ReplayGroup>)
    ensures
        forall|i: int, j: int|
            0 <= i < j < groups@.len() ==> key_lt(
                group_key(#[trigger] groups@[i]),
                group_key(#[trigger] groups@[j]),
            ),
        forall|g: int|
            0 <= g < groups@.len() ==> (#[trigger] groups@[g]).hashes@.map_values(|h: String| h@)
                == hashes_with_key(hashes@, replay_map@, group_key(groups@[g])),
        forall|g: int| 0 <= g < groups@.len() ==> key_occurs(
            hashes@,
            replay_map@,
            group_key(#[trigger] groups@[g]),
        ),
        forall|key: (Seq<char>, Seq<char>)|
            key_occurs(hashes@, replay_map@, key) ==> exists|g: int|
                0 <= g < groups@.len() && group_key(#[trigger] groups@[g]) == key,
{
    // Collect the distinct keys, in first-appearance order.
    let mut keys: Vec<(String, String)> = Vec::new();
    let mut i: usize = 0;
    while i < hashes.len()
        invariant
            i <= hashes@.len(),
            forall|a: int, b: int|
                0 <= a < b < keys@.len() ==> ((#[trigger] keys@[a]).0@, keys@[a].1@) != ((
                #[trigger] keys@[b]).0@, keys@[b].1@),
            forall|a: int|
                0 <= a < keys@.len() ==> key_occurs(
                    hashes@,
                    replay_map@,
                    ((#[trigger] keys@[a]).0@, keys@[a].1@),
                ),
            forall|key: (Seq<char>, Seq<char>)|
                key_occurs(hashes@.take(i as int), replay_map@, key) ==> key_listed(keys@, key),
        decreases hashes@.len() - i,
    {
        let ghost keys0 = keys@;
        match lookup_entry_exec(replay_map, hashes[i].as_str()) {
            None => {},
            Some(e) => {
                if !key_in(&keys, e.1.as_str(), e.2.as_str()) {
                    keys.push((e.1.clone(), e.2.clone()));
                    proof {
                        assert(group_key_of(replay_map@, hashes@[i as int]@) == Some(
                            ((keys@[keys@.len() - 1]).0@, keys@[keys@.len() - 1].1@),
                        ));
                    }
                }
            },
        }
        proof {
            assert forall|key: (Seq<char>, Seq<char>)|
                key_occurs(hashes@.take(i + 1), replay_map@, key) implies key_listed(
                keys@,
                key,
            ) by {
                let w = choose|w: int|
                    0 <= w < hashes@.take(i + 1).len() && group_key_of(
                        replay_map@,
                        (#[trigger] hashes@.take(i + 1)[w])@,
                    ) == Some(key);
                if w < i {
                    assert(hashes@.take(i as int)[w] == hashes@.take(i + 1)[w]);
                    assert(key_occurs(hashes@.take(i as int), replay_map@, key));
                    assert(key_listed(keys0, key));
                    let a = choose|a: int|
                        0 <= a < keys0.len() && ((#[trigger] keys0[a]).0@, keys0[a].1@) == key;
                    assert((keys@[a].0@, keys@[a].1@) == key);
                } else {
                    assert(hashes@.take(i + 1)[w] == hashes@[i as int]);
                    assert(group_key_of(replay_map@, hashes@[i as int]@) == Some(key));
                    if key_listed(keys0, key) {
                        let a = choose|a: int|
                            0 <= a < keys0.len() && ((#[trigger] keys0[a]).0@, keys0[a].1@) == key;
                        assert((keys@[a].0@, keys@[a].1@) == key);
                    } else {
                        assert((keys@[keys@.len() - 1].0@, keys@[keys@.len() - 1].1@) == key);
                    }
                }
            }
            assert forall|a: int|
                0 <= a < keys@.len() implies key_occurs(
                    hashes@,
                    replay_map@,
                    ((#[trigger] keys@[a]).0@, keys@[a].1@),
                ) by {
                if a < keys0.len() {
                    assert(keys@[a] == keys0[a]);
                } else {
                    assert(group_key_of(replay_map@, (hashes@[i as int])@) == Some(
                        (keys@[a].0@, keys@[a].1@),
                    ));
                }
            }
        }
        i += 1;
    }
    proof {
        assert(hashes@.take(hashes@.len() as int) =~= hashes@);
    }
    // Sort the keys.
    let ghost keys_unsorted = keys@;
    let keys = sort_keys(keys);
    proof {
        assert forall|a: int|
            0 <= a < keys@.len() implies key_occurs(
                hashes@,
                replay_map@,
                ((#[trigger] keys@[a]).0@, keys@[a].1@),
            ) by {
            assert(key_listed(keys@, (keys@[a].0@, keys@[a].1@)));
            assert(key_listed(keys_unsorted, (keys@[a].0@, keys@[a].1@)));
            let b = choose|b: int|
                0 <= b < keys_unsorted.len() && ((#[trigger] keys_unsorted[b]).0@,
                keys_unsorted[b].1@) == (keys@[a].0@, keys@[a].1@);
        }
        assert forall|key: (Seq<char>, Seq<char>)|
            key_occurs(hashes@, replay_map@, key) implies key_listed(keys@, key) by {
            assert(key_listed(keys_unsorted, key));
        }
    }
    // Build one group per key, with the matching hashes in input order.
    let mut groups: Vec<ReplayGroup> = Vec::new();
    let mut g: usize = 0;
    while g < keys.len()
        invariant
            g <= keys@.len(),
            groups@.len() == g,
            forall|a: int, b: int|
                0 <= a < b < keys@.len() ==> key_lt(
                    ((#[trigger] keys@[a]).0@, keys@[a].1@),
                    ((#[trigger] keys@[b]).0@, keys@[b].1@),
                ),
            forall|a: int|
                0 <= a < keys@.len() ==> key_occurs(
                    hashes@,
                    replay_map@,
                    ((#[trigger] keys@[a]).0@, keys@[a].1@),
                ),
            forall|key: (Seq<char>, Seq<char>)|
                key_occurs(hashes@, replay_map@, key) ==> key_listed(keys@, key),
            forall|a: int|
                0 <= a < g ==> group_key(#[trigger] groups@[a]) == (keys@[a].0@, keys@[a].1@),
            forall|a: int|
                0 <= a < g ==> (#[trigger] groups@[a]).hashes@.map_values(|h: String| h@)
                    == hashes_with_key(hashes@, replay_map@, group_key(groups@[a])),
        decreases keys@.len() - g,
    {
        let key = &keys[g];
        let mut hs: Vec<String> = Vec::new();
        let mut i2: usize = 0;
        proof {
            assert(hashes@.take(0).map_values(|h: String| h@) =~= Seq::<Seq<char>>::empty());
            assert(hashes_with_key(hashes@.take(0), replay_map@, (key.0@, key.1@)) =~= Seq::<
                Seq<char>,
            >::empty());
            assert(hs@.map_values(|h: String| h@) =~= Seq::<Seq<char>>::empty());
        }
        while i2 < hashes.len()
            invariant
                i2 <= hashes@.len(),
                hs@.map_values(|h: String| h@) == hashes_with_key(
                    hashes@.take(i2 as int),
                    replay_map@,
                    ((#[trigger] key.0)@, key.1@),
                ),
            decreases hashes@.len() - i2,
        {
            let ghost pre = hashes@.take(i2 as int).map_values(|h: String| h@);
            let ghost pre1 = hashes@.take(i2 + 1).map_values(|h: String| h@);
            proof {
                assert(pre1.drop_last() =~= pre);
                assert(pre1.last() == hashes@[i2 as int]@);
                assert(pre1 =~= pre.push(hashes@[i2 as int]@));
            }
            let keep = match lookup_entry_exec(replay_map, hashes[i2].as_str()) {
                None => false,
                Some(e) => key_eq(e.1.as_str(), e.2.as_str(), key),
            };
            let ghost hs0 = hs@;
            if keep {
                hs.push(hashes[i2].clone());
            }
            proof {
                reveal_with_fuel(Seq::<Seq<char>>::filter, 2);
                let pred = |hh: Seq<char>| group_key_of(replay_map@, hh) == Some(
                    ((key.0)@, key.1@),
                );
                assert(pre1.filter(pred) == if pred(hashes@[i2 as int]@) {
                    pre.filter(pred).push(hashes@[i2 as int]@)
                } else {
                    pre.filter(pred)
                });
                if keep {
                    assert(hs@.map_values(|h: String| h@) =~= hs0.map_values(
                        |h: String| h@,
                    ).push(hashes@[i2 as int]@));
                }
            }
            i2 += 1;
        }
        proof {
            assert(hashes@.take(hashes@.len() as int) =~= hashes@);
        }
        groups.push(
            ReplayGroup { game_type: key.0.clone(), player_name: key.1.clone(), hashes: hs },
        );
        g += 1;
    }
    proof {
        assert forall|key: (Seq<char>, Seq<char>)|
            key_occurs(hashes@, replay_map@, key) implies exists|gg: int|
                0 <= gg < groups@.len() && group_key(#[trigger] groups@[gg]) == key by {
            assert(key_listed(keys@, key));
            let a = choose|a: int|
                0 <= a < keys@.len() && ((#[trigger] keys@[a]).0@, keys@[a].1@) == key;
            assert(group_key(groups@[a]) == key);
        }
    }
    groups
}

/// Sort keys by game type, then player name; distinct keys stay distinct and
/// none appears or disappears.
fn sort_keys(v: Vec<(String, String)>) -> (r: Vec<(String, String)>)
    requires
        forall|a: int, b: int|
            0 <= a < b < v@.len() ==> ((#[trigger] v@[a]).0@, v@[a].1@) != ((#[trigger] v@[b]).0@,
            v@[b].1@),
    ensures
        r@.len() == v@.len(),
        forall|a: int, b: int|
            0 <= a < b < r@.len() ==> key_lt(
                ((#[trigger] r@[a]).0@, r@[a].1@),
                ((#[trigger] r@[b]).0@, r@[b].1@),
            ),
        forall|key: (Seq<char>, Seq<char>)|
            #[trigger] key_listed(r@, key) <==> key_listed(v@, key),
{
    let mut r: Vec<(String, String)> = Vec::new();
    let mut i: usize = 0;
    while i < v.len()
        invariant
            i <= v@.len(),
            r@.len() == i,
            forall|a: int, b: int|
                0 <= a < b < v@.len() ==> ((#[trigger] v@[a]).0@, v@[a].1@) != ((
                #[trigger] v@[b]).0@, v@[b].1@),
            forall|a: int, b: int|
                0 <= a < b < r@.len() ==> !key_lt(
                    ((#[trigger] r@[b]).0@, r@[b].1@),
                    ((#[trigger] r@[a]).0@, r@[a].1@),
                ) && ((r@[a].0@, r@[a].1@) != (r@[b].0@, r@[b].1@)),
            forall|key: (Seq<char>, Seq<char>)|
                #[trigger] key_listed(r@, key) <==> key_listed(v@.take(i as int), key),
        decreases v@.len() - i,
    {
        let x = (v[i].0.clone(), v[i].1.clone());
        proof {
            assert((x.0@, x.1@) == ((v@[i as int]).0@, v@[i as int].1@));
        }
        let mut j: usize = 0;
        while j < r.len() && key_pair_lt(&r[j], &x)
            invariant
                j <= r@.len(),
                forall|a: int| 0 <= a < j ==> key_lt(((#[trigger] r@[a]).0@, r@[a].1@), (x.0@, x.1@)),
            decreases r@.len() - j,
        {
            j += 1;
        }
        let ghost old_r = r@;
        r.insert(j, x);
        proof {
            assert(forall|a: int| 0 <= a < j ==> r@[a] == old_r[a]);
            assert(r@[j as int] == x);
            assert(forall|a: int| j < a < r@.len() ==> r@[a] == old_r[a - 1]);
            assert(!key_listed(old_r, (x.0@, x.1@))) by {
                if key_listed(old_r, (x.0@, x.1@)) {
                    assert(key_listed(v@.take(i as int), (x.0@, x.1@)));
                    let b = choose|b: int|
                        0 <= b < v@.take(i as int).len() && ((#[trigger] v@.take(i as int)[b]).0@,
                        v@.take(i as int)[b].1@) == (x.0@, x.1@);
                    assert(v@.take(i as int)[b] == v@[b]);
                    assert((v@[b].0@, v@[b].1@) != (v@[i as int].0@, v@[i as int].1@));
                }
            }
            assert(j < old_r.len() ==> !key_lt((old_r[j as int].0@, old_r[j as int].1@), (x.0@, x.1@)));
            assert forall|a: int, b: int|
                0 <= a < b < r@.len() implies !key_lt(
                    ((#[trigger] r@[b]).0@, r@[b].1@),
                    ((#[trigger] r@[a]).0@, r@[a].1@),
                ) && ((r@[a].0@, r@[a].1@) != (r@[b].0@, r@[b].1@)) by {
                lemma_key_lt_connected();
                if a < j && b == j {
                    let ka = (old_r[a].0@, old_r[a].1@);
                    let kx = (x.0@, x.1@);
                    assert(key_lt(ka, kx));
                    assert(ka != kx) by {
                        if ka == kx {
                            lemma_key_lt_irreflexive(kx);
                        }
                    }
                    assert(!key_lt(kx, ka)) by {
                        if key_lt(kx, ka) {
                            lemma_key_lt_trans(kx, ka, kx);
                            lemma_key_lt_irreflexive(kx);
                        }
                    }
                } else if a == j && b > j {
                    let kb = (old_r[b - 1].0@, old_r[b - 1].1@);
                    let kx = (x.0@, x.1@);
                    let kj = (old_r[j as int].0@, old_r[j as int].1@);
                    assert(kb != kx) by {
                        if kb == kx {
                            assert(key_listed(old_r, kx));
                        }
                    }
                    assert(!key_lt(kb, kx)) by {
                        if key_lt(kb, kx) {
                            assert(!key_lt(kj, kx));
                            assert(kj != kx) by {
                                if kj == kx {
                                    assert(key_listed(old_r, kx));
                                }
                            }
                            assert(key_lt(kx, kj));
                            if b - 1 > j {
                                assert(!key_lt(kb, kj));
                                assert(key_lt(kj, kb) || kj == kb);
                                if kj == kb {
                                    lemma_key_lt_trans(kb, kx, kj);
                                    lemma_key_lt_irreflexive(kj);
                                } else {
                                    lemma_key_lt_trans(kx, kj, kb);
                                    lemma_key_lt_trans(kb, kx, kb);
                                    lemma_key_lt_irreflexive(kb);
                                }
                            } else {
                                lemma_key_lt_trans(kb, kx, kj);
                                lemma_key_lt_irreflexive(kj);
                            }
                        }
                    }
                } else if a < j && b > j {
                    assert(!key_lt((old_r[b - 1].0@, old_r[b - 1].1@), (old_r[a].0@, old_r[a].1@)));
                    assert((old_r[a].0@, old_r[a].1@) != (old_r[b - 1].0@, old_r[b - 1].1@));
                } else if a > j {
                    assert(!key_lt((old_r[b - 1].0@, old_r[b - 1].1@), (old_r[a - 1].0@, old_r[a
                        - 1].1@)));
                    assert((old_r[a - 1].0@, old_r[a - 1].1@) != (old_r[b - 1].0@, old_r[b
                        - 1].1@));
                } else {
                    assert(!key_lt((old_r[b].0@, old_r[b].1@), (old_r[a].0@, old_r[a].1@)));
                    assert((old_r[a].0@, old_r[a].1@) != (old_r[b].0@, old_r[b].1@));
                }
            }
            assert forall|key: (Seq<char>, Seq<char>)|
                #[trigger] key_listed(r@, key) <==> key_listed(v@.take(i + 1), key) by {
                if key_listed(r@, key) {
                    let a = choose|a: int|
                        0 <= a < r@.len() && ((#[trigger] r@[a]).0@, r@[a].1@) == key;
                    if a == j {
                        assert(v@.take(i + 1)[i as int] == v@[i as int]);
                        assert((v@.take(i + 1)[i as int].0@, v@.take(i + 1)[i as int].1@) == key);
                    } else {
                        let oa: int = if a < j {
                            a
                        } else {
                            a - 1
                        };
                        assert((old_r[oa].0@, old_r[oa].1@) == key);
                        assert(key_listed(old_r, key));
                        assert(key_listed(v@.take(i as int), key));
                        let b = choose|b: int|
                            0 <= b < v@.take(i as int).len() && ((#[trigger] v@.take(
                                i as int,
                            )[b]).0@, v@.take(i as int)[b].1@) == key;
                        assert((v@.take(i + 1)[b].0@, v@.take(i + 1)[b].1@) == key);
                    }
                }
                if key_listed(v@.take(i + 1), key) {
                    let a = choose|a: int|
                        0 <= a < v@.take(i + 1).len() && ((#[trigger] v@.take(i + 1)[a]).0@,
                        v@.take(i + 1)[a].1@) == key;
                    if a == i {
                        assert((r@[j as int].0@, r@[j as int].1@) == key);
                    } else {
                        assert(v@.take(i as int)[a] == v@.take(i + 1)[a]);
                        assert(key_listed(v@.take(i as int), key));
                        assert(key_listed(old_r, key));
                        let b = choose|b: int|
                            0 <= b < old_r.len() && ((#[trigger] old_r[b]).0@, old_r[b].1@) == key;
                        if b < j {
                            assert((r@[b].0@, r@[b].1@) == key);
                        } else {
                            assert((r@[b + 1].0@, r@[b + 1].1@) == key);
                        }
                    }
                }
            }
        }
        i += 1;
    }
    proof {
        lemma_key_lt_connected();
        assert forall|a: int, b: int|
            0 <= a < b < r@.len() implies key_lt(
                ((#[trigger] r@[a]).0@, r@[a].1@),
                ((#[trigger] r@[b]).0@, r@[b].1@),
            ) by {
            assert(!key_lt(((r@[b]).0@, r@[b].1@), ((r@[a]).0@, r@[a].1@)));
            assert(((r@[a]).0@, r@[a].1@) != ((r@[b]).0@, r@[b].1@));
        }
        assert(v@.take(v@.len() as int) =~= v@);
        assert forall|key: (Seq<char>, Seq<char>)|
            #[trigger] key_listed(r@, key) <==> key_listed(v@, key) by {
            assert(key_listed(r@, key) <==> key_listed(v@.take(v@.len() as int), key));
        }
    }
    r
}

/// Two distinct keys compare strictly one way or the other.
proof fn lemma_key_lt_connected()
    ensures
        forall|a: (Seq<char>, Seq<char>), b: (Seq<char>, Seq<char>)|
            !(#[trigger] key_lt(a, b)) && !(#[trigger] key_lt(b, a)) ==> a == b,
{
    assert forall|a: (Seq<char>, Seq<char>), b: (Seq<char>, Seq<char>)|
        !(#[trigger] key_lt(a, b)) && !(#[trigger] key_lt(b, a)) implies a == b by {
        lemma_seq_char_lt_connected(a.0, b.0);
        if a.0 == b.0 {
            lemma_seq_char_lt_connected(a.1, b.1);
        }
    }
}

proof fn lemma_key_lt_irreflexive(a: (Seq<char>, Seq<char>))
    ensures
        !key_lt(a, a),
{
    lemma_seq_char_lt_irreflexive(a.0);
    lemma_seq_char_lt_irreflexive(a.1);
}

/// Lexicographic order on character sequences is transitive.
proof fn lemma_seq_char_lt_trans(a: Seq<char>, b: Seq<char>, c: Seq<char>)
    requires
        seq_char_lt(a, b),
        seq_char_lt(b, c),
    ensures
        seq_char_lt(a, c),
    decreases a.len() + b.len() + c.len(),
{
    if a.len() == 0 {
    } else {
        assert(b.len() > 0 && c.len() > 0);
        if a[0] != b[0] {
            if b[0] != c[0] {
                assert((a[0] as u32) < (c[0] as u32));
                if a[0] == c[0] {
                    assert((a[0] as u32) == (c[0] as u32));
                }
            } else {
                assert((a[0] as u32) < (c[0] as u32));
                if a[0] == c[0] {
                    assert((a[0] as u32) == (c[0] as u32));
                }
            }
        } else {
            if b[0] != c[0] {
                assert((b[0] as u32) < (c[0] as u32));
                assert((a[0] as u32) < (c[0] as u32)) by {
                    assert((a[0] as u32) == (b[0] as u32));
                }
                if a[0] == c[0] {
                    assert((a[0] as u32) == (c[0] as u32));
                }
            } else {
                assert(a[0] == c[0]);
                lemma_seq_char_lt_trans(a.drop_first(), b.drop_first(), c.drop_first());
            }
        }
    }
}

/// Key order is transitive.
proof fn lemma_key_lt_trans(a: (Seq<char>, Seq<char>), b: (Seq<char>, Seq<char>), c: (
    Seq<char>,
    Seq<char>,
))
    requires
        key_lt(a, b),
        key_lt(b, c),
    ensures
        key_lt(a, c),
{
    if seq_char_lt(a.0, b.0) && seq_char_lt(b.0, c.0) {
        lemma_seq_char_lt_trans(a.0, b.0, c.0);
    } else if seq_char_lt(a.0, b.0) && b.0 == c.0 {
    } else if a.0 == b.0 && seq_char_lt(b.0, c.0) {
    } else {
        lemma_seq_char_lt_trans(a.1, b.1, c.1);
    }
}

/// Lexicographic order on character sequences is connected.
proof fn lemma_seq_char_lt_connected(a: Seq<char>, b: Seq<char>)
    ensures
        !seq_char_lt(a, b) && !seq_char_lt(b, a) ==> a == b,
    decreases a.len(),
{
    if !seq_char_lt(a, b) && !seq_char_lt(b, a) {
        if b.len() == 0 {
            assert(a.len() == 0);
            assert(a =~= b);
        } else if a.len() == 0 {
        } else {
            assert(a[0] == b[0]) by {
                if a[0] != b[0] {
                    assert((a[0] as u32) == (b[0] as u32));
                    vstd::utf8::char_u32_cast(a[0], a[0] as u32);
                    vstd::utf8::char_u32_cast(b[0], b[0] as u32);
                }
            }
            lemma_seq_char_lt_connected(a.drop_first(), b.drop_first());
            assert(a.drop_first() =~= b.drop_first());
            assert(a =~= b) by {
                assert(forall|k: int|
                    1 <= k < a.len() ==> a[k] == a.drop_first()[k - 1] && b[k] == b.drop_first()[k
                        - 1]);
            }
        }
    }
}

proof fn lemma_seq_char_lt_irreflexive(a: Seq<char>)
    ensures
        !seq_char_lt(a, a),
    decreases a.len(),
{
    if a.len() > 0 {
        lemma_seq_char_lt_irreflexive(a.drop_first());
    }
}

} // verus!
