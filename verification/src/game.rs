//! Replay classification: game types, lobby slots, and the rules that decide
//! whether a parsed replay is a competitive match worth uploading.

use vstd::prelude::*;
use vstd::pervasive::VecAdditionalExecFns;
use vstd::seq_lib::lemma_sorted_unique;
use vstd::relations::{total_ordering, sorted_by};

verus! {

/// Classification of a replay into the closed set of recognised game types.
#[derive(Debug, Clone, PartialEq, Eq, Structural)]
pub enum GameType {
    Ladder1v1,
    Unranked1v1,
    Private1v1,
    Obs1v1,
    VsAI1v1,
    Ladder2v2,
    Unranked2v2,
    Private2v2,
    Obs2v2,
    TeamGame,
    Arcade,
    Practice,
    Other,
}

impl GameType {
    /// The string tag used for storage, display, and the upload query string.
    pub open spec fn tag_of(self) -> Seq<char> {
        match self {
            GameType::Ladder1v1 => "1v1-ladder"@,
            GameType::Unranked1v1 => "1v1-unranked"@,
            GameType::Private1v1 => "1v1-private"@,
            GameType::Obs1v1 => "1v1-obs"@,
            GameType::VsAI1v1 => "1vAI"@,
            GameType::Ladder2v2 => "2v2-ladder"@,
            GameType::Unranked2v2 => "2v2-unranked"@,
            GameType::Private2v2 => "2v2-private"@,
            GameType::Obs2v2 => "2v2-obs"@,
            GameType::TeamGame => "team-game"@,
            GameType::Arcade => "arcade"@,
            GameType::Practice => "practice"@,
            GameType::Other => "other"@,
        }
    }

    pub fn as_str(&self) -> (r: &str)
        ensures
            r@ == self.tag_of(),
    {
        match self {
            GameType::Ladder1v1 => "1v1-ladder",
            GameType::Unranked1v1 => "1v1-unranked",
            GameType::Private1v1 => "1v1-private",
            GameType::Obs1v1 => "1v1-obs",
            GameType::VsAI1v1 => "1vAI",
            GameType::Ladder2v2 => "2v2-ladder",
            GameType::Unranked2v2 => "2v2-unranked",
            GameType::Private2v2 => "2v2-private",
            GameType::Obs2v2 => "2v2-obs",
            GameType::TeamGame => "team-game",
            GameType::Arcade => "arcade",
            GameType::Practice => "practice",
            GameType::Other => "other",
        }
    }

    /// The uploadable game types are exactly the 1v1 and 2v2 variants other
    /// than games against the computer and practice games.
    pub open spec fn is_uploadable(self) -> bool {
        self == GameType::Ladder1v1 || self == GameType::Unranked1v1 || self
            == GameType::Private1v1 || self == GameType::Obs1v1 || self == GameType::Ladder2v2
            || self == GameType::Unranked2v2 || self == GameType::Private2v2 || self
            == GameType::Obs2v2
    }

    pub fn should_upload(&self) -> (r: bool)
        ensures
            r == self.is_uploadable(),
    {
        match self {
            GameType::Ladder1v1 => true,
            GameType::Unranked1v1 => true,
            GameType::Private1v1 => true,
            GameType::Obs1v1 => true,
            GameType::Ladder2v2 => true,
            GameType::Unranked2v2 => true,
            GameType::Private2v2 => true,
            GameType::Obs2v2 => true,
            _ => false,
        }
    }
}

/// A player as reported by the replay's details record, AI slots omitted.
#[derive(Debug, Clone, PartialEq, Eq)]
pub struct PlayerInfo {
    pub name: String,
    pub is_observer: bool,
}

/// One slot of the replay's details record: a participant, an observer or an
/// AI, with the team it plays on.
#[derive(Debug, Clone)]
pub struct ReplaySlot {
    pub name: String,
    pub team_id: u8,
    /// Zero for a participant, anything else for an observer.
    pub observe: u8,
    /// Two for a human, three for the computer.
    pub control: u8,
}

pub open spec fn is_observer_slot(s: ReplaySlot) -> bool {
    s.observe != 0
}

pub open spec fn is_active_human(s: ReplaySlot) -> bool {
    s.observe == 0 && s.control == 2
}

pub open spec fn is_active_ai(s: ReplaySlot) -> bool {
    s.observe == 0 && s.control == 3
}

pub open spec fn observer_count(slots: Seq<ReplaySlot>) -> nat {
    slots.filter(|s: ReplaySlot| is_observer_slot(s)).len()
}

pub open spec fn ai_count(slots: Seq<ReplaySlot>) -> nat {
    slots.filter(|s: ReplaySlot| is_active_ai(s)).len()
}

pub open spec fn human_count(slots: Seq<ReplaySlot>) -> nat {
    slots.filter(|s: ReplaySlot| is_active_human(s)).len()
}

/// The distinct team ids of active human slots, in order of first appearance.
pub open spec fn team_ids(slots: Seq<ReplaySlot>) -> Seq<u8>
    decreases slots.len(),
{
    if slots.len() == 0 {
        Seq::empty()
    } else {
        let prev = team_ids(slots.drop_last());
        let s = slots.last();
        if is_active_human(s) && !prev.contains(s.team_id) {
            prev.push(s.team_id)
        } else {
            prev
        }
    }
}

/// How many active human slots play on the given team.
pub open spec fn team_count(slots: Seq<ReplaySlot>, id: u8) -> nat {
    slots.filter(|s: ReplaySlot| is_active_human(s) && s.team_id == id).len()
}

/// Descending order on team sizes.
pub open spec fn size_ge() -> spec_fn(usize, usize) -> bool {
    |a: usize, b: usize| a >= b
}

/// The sizes of the teams of active human players, largest team first.
pub open spec fn team_sizes_desc(slots: Seq<ReplaySlot>) -> Seq<usize> {
    team_ids(slots).map_values(|id: u8| team_count(slots, id) as usize).sort_by(size_ge())
}

/// The classification decision tree over the summary of a replay:
/// the team sizes (largest first), the number of active human players, the
/// observer and AI counts, and the lobby flags.
pub open spec fn classify_spec(
    team_sizes: Seq<usize>,
    total_humans: nat,
    observers: nat,
    ai_count: nat,
    amm: bool,
    competitive: bool,
    practice: bool,
) -> GameType {
    if practice {
        GameType::Practice
    } else if team_sizes.len() == 2 && team_sizes[0] == 1 && team_sizes[1] == 1 {
        if observers > 0 {
            GameType::Obs1v1
        } else if ai_count > 0 {
            GameType::VsAI1v1
        } else if amm {
            if competitive {
                GameType::Ladder1v1
            } else {
                GameType::Unranked1v1
            }
        } else {
            GameType::Private1v1
        }
    } else if team_sizes.len() == 1 && team_sizes[0] == 1 && ai_count > 0 {
        GameType::VsAI1v1
    } else if team_sizes.len() == 2 && team_sizes[0] == 2 && team_sizes[1] == 2 {
        if observers > 0 {
            GameType::Obs2v2
        } else if amm {
            if competitive {
                GameType::Ladder2v2
            } else {
                GameType::Unranked2v2
            }
        } else {
            GameType::Private2v2
        }
    } else if team_sizes.len() == 2 && total_humans >= 6 {
        GameType::TeamGame
    } else if !amm && !practice && total_humans > 0 {
        GameType::Arcade
    } else {
        GameType::Other
    }
}

/// Classify a replay from its summary values. `team_sizes` must already be
/// sorted largest-first; `total_humans` is the number of active human players.
pub fn classify_game_type(
    team_sizes: &Vec<usize>,
    total_humans: usize,
    observers: usize,
    ai_count: usize,
    amm: bool,
    competitive: bool,
    practice: bool,
) -> (r: GameType)
    ensures
        r == classify_spec(
            team_sizes@,
            total_humans as nat,
            observers as nat,
            ai_count as nat,
            amm,
            competitive,
            practice,
        ),
{
    if practice {
        return GameType::Practice;
    }
    if team_sizes.len() == 2 && team_sizes[0] == 1 && team_sizes[1] == 1 {
        if observers > 0 {
            return GameType::Obs1v1;
        }
        if ai_count > 0 {
            return GameType::VsAI1v1;
        }
        if amm {
            return if competitive {
                GameType::Ladder1v1
            } else {
                GameType::Unranked1v1
            };
        }
        return GameType::Private1v1;
    }
    if team_sizes.len() == 1 && team_sizes[0] == 1 && ai_count > 0 {
        return GameType::VsAI1v1;
    }
    if team_sizes.len() == 2 && team_sizes[0] == 2 && team_sizes[1] == 2 {
        if observers > 0 {
            return GameType::Obs2v2;
        }
        if amm {
            return if competitive {
                GameType::Ladder2v2
            } else {
                GameType::Unranked2v2
            };
        }
        return GameType::Private2v2;
    }
    if team_sizes.len() == 2 && total_humans >= 6 {
        return GameType::TeamGame;
    }
    if !amm && !practice && total_humans > 0 {
        return GameType::Arcade;
    }
    GameType::Other
}

/// Classify a replay from its lobby slots and lobby flags. This computes the
/// team sizes of the active human players, sorted largest-first, and feeds
/// the decision tree.
pub fn classify_replay(
    slots: &Vec<ReplaySlot>,
    amm: bool,
    competitive: bool,
    practice: bool,
) -> (r: GameType)
    ensures
        r == classify_spec(
            team_sizes_desc(slots@),
            human_count(slots@),
            observer_count(slots@),
            ai_count(slots@),
            amm,
            competitive,
            practice,
        ),
{
    let mut ids: Vec<u8> = Vec::new();
    let mut counts: Vec<usize> = Vec::new();
    let mut humans: usize = 0;
    let mut observers: usize = 0;
    let mut ais: usize = 0;
    let mut i: usize = 0;
    proof {
        assert(slots@.subrange(0, 0) =~= Seq::<ReplaySlot>::empty());
        reveal_with_fuel(Seq::<ReplaySlot>::filter, 2);
    }
    while i < slots.len()
        invariant
            i <= slots@.len(),
            ids@ == team_ids(slots@.subrange(0, i as int)),
            counts@.len() == ids@.len(),
            forall|j: int|
                0 <= j < ids@.len() ==> counts@[j] == team_count(
                    slots@.subrange(0, i as int),
                    ids@[j],
                ),
            humans == human_count(slots@.subrange(0, i as int)),
            observers == observer_count(slots@.subrange(0, i as int)),
            ais == ai_count(slots@.subrange(0, i as int)),
            humans <= i,
            observers <= i,
            ais <= i,
        decreases slots@.len() - i,
    {
        let ghost prefix = slots@.subrange(0, i as int);
        let ghost prefix1 = slots@.subrange(0, i + 1);
        proof {
            assert(prefix1.drop_last() =~= prefix);
            assert(prefix1.last() == slots@[i as int]);
            reveal_with_fuel(Seq::<ReplaySlot>::filter, 2);
        }
        let slot = &slots[i];
        if slot.observe != 0 {
            observers += 1;
            proof {
                lemma_counts_extend_filter(prefix, slots@[i as int]);
            }
        } else if slot.control == 2 {
            humans += 1;
            proof {
                lemma_counts_extend_filter(prefix, slots@[i as int]);
            }
            // Find this slot's team among the ids seen so far.
            let mut j: usize = 0;
            while j < ids.len() && ids[j] != slot.team_id
                invariant
                    j <= ids@.len(),
                    forall|k: int| 0 <= k < j ==> ids@[k] != slot.team_id,
                decreases ids@.len() - j,
            {
                j += 1;
            }
            if j < ids.len() {
                proof {
                    lemma_team_count_bounded(prefix, ids@[j as int]);
                    lemma_team_ids_distinct(prefix);
                }
                let c = counts[j];
                counts.set(j, c + 1);
            } else {
                proof {
                    lemma_team_count_zero_outside_ids(prefix, slots@[i as int].team_id);
                }
                ids.push(slot.team_id);
                counts.push(1);
            }
        } else if slot.control == 3 {
            ais += 1;
            proof {
                lemma_counts_extend_filter(prefix, slots@[i as int]);
            }
        } else {
            proof {
                lemma_counts_extend_filter(prefix, slots@[i as int]);
            }
        }
        i += 1;
    }
    proof {
        assert(slots@.subrange(0, slots@.len() as int) =~= slots@);
    }
    let sizes = sort_sizes_desc(counts);
    proof {
        let raw = team_ids(slots@).map_values(|id: u8| team_count(slots@, id) as usize);
        assert(counts@ =~= raw);
        raw.lemma_sort_by_ensures(size_ge());
        lemma_size_ge_total();
        lemma_sorted_unique(sizes@, raw.sort_by(size_ge()), size_ge());
    }
    classify_game_type(&sizes, humans, observers, ais, amm, competitive, practice)
}

proof fn lemma_size_ge_total()
    ensures
        total_ordering(size_ge()),
{
}

/// Extending the slot sequence by one slot extends each filtered count by at
/// most that slot.
proof fn lemma_counts_extend_filter(prefix: Seq<ReplaySlot>, s: ReplaySlot)
    ensures
        human_count(prefix.push(s)) == human_count(prefix) + (if is_active_human(s) {
            1int
        } else {
            0int
        }),
        observer_count(prefix.push(s)) == observer_count(prefix) + (if is_observer_slot(s) {
            1int
        } else {
            0int
        }),
        ai_count(prefix.push(s)) == ai_count(prefix) + (if is_active_ai(s) {
            1int
        } else {
            0int
        }),
        forall|id: u8|
            #[trigger] team_count(prefix.push(s), id) == team_count(prefix, id) + (
            if is_active_human(s) && s.team_id == id {
                1int
            } else {
                0int
            }),
        team_ids(prefix.push(s)) == (if is_active_human(s) && !team_ids(prefix).contains(s.team_id) {
            team_ids(prefix).push(s.team_id)
        } else {
            team_ids(prefix)
        }),
{
    let p1 = prefix.push(s);
    assert(p1.drop_last() =~= prefix);
    assert(p1.last() == s);
    reveal_with_fuel(Seq::<ReplaySlot>::filter, 2);
    assert(p1.filter(|t: ReplaySlot| is_active_human(t)) == (if is_active_human(s) {
        prefix.filter(|t: ReplaySlot| is_active_human(t)).push(s)
    } else {
        prefix.filter(|t: ReplaySlot| is_active_human(t))
    }));
    assert(p1.filter(|t: ReplaySlot| is_observer_slot(t)) == (if is_observer_slot(s) {
        prefix.filter(|t: ReplaySlot| is_observer_slot(t)).push(s)
    } else {
        prefix.filter(|t: ReplaySlot| is_observer_slot(t))
    }));
    assert(p1.filter(|t: ReplaySlot| is_active_ai(t)) == (if is_active_ai(s) {
        prefix.filter(|t: ReplaySlot| is_active_ai(t)).push(s)
    } else {
        prefix.filter(|t: ReplaySlot| is_active_ai(t))
    }));
    assert forall|id: u8| #[trigger] team_count(p1, id) == team_count(prefix, id) + (
    if is_active_human(s) && s.team_id == id {
        1int
    } else {
        0int
    }) by {
        assert(p1.filter(|t: ReplaySlot| is_active_human(t) && t.team_id == id) == (
        if is_active_human(s) && s.team_id == id {
            prefix.filter(|t: ReplaySlot| is_active_human(t) && t.team_id == id).push(s)
        } else {
            prefix.filter(|t: ReplaySlot| is_active_human(t) && t.team_id == id)
        }));
    }
}

/// A team's count never exceeds the number of slots.
proof fn lemma_team_count_bounded(slots: Seq<ReplaySlot>, id: u8)
    ensures
        team_count(slots, id) <= slots.len(),
{
    slots.lemma_filter_len(|t: ReplaySlot| is_active_human(t) && t.team_id == id);
}

/// The ids produced by `team_ids` are pairwise distinct.
proof fn lemma_team_ids_distinct(slots: Seq<ReplaySlot>)
    ensures
        forall|k1: int, k2: int|
            0 <= k1 < k2 < team_ids(slots).len() ==> team_ids(slots)[k1] != team_ids(slots)[k2],
    decreases slots.len(),
{
    if slots.len() > 0 {
        let prefix = slots.drop_last();
        let s = slots.last();
        let prev = team_ids(prefix);
        lemma_team_ids_distinct(prefix);
        if is_active_human(s) && !prev.contains(s.team_id) {
            assert(team_ids(slots) == prev.push(s.team_id));
            assert forall|k1: int, k2: int|
                0 <= k1 < k2 < team_ids(slots).len() implies team_ids(slots)[k1] != team_ids(
                slots,
            )[k2] by {
                if k2 == prev.len() {
                    assert(team_ids(slots)[k1] == prev[k1]);
                    if prev[k1] == s.team_id {
                        assert(prev.contains(s.team_id));
                    }
                } else {
                    assert(team_ids(slots)[k1] == prev[k1]);
                    assert(team_ids(slots)[k2] == prev[k2]);
                }
            }
        }
    }
}

/// A team id that `team_ids` does not list has no active human slots.
proof fn lemma_team_count_zero_outside_ids(slots: Seq<ReplaySlot>, id: u8)
    requires
        !team_ids(slots).contains(id),
    ensures
        team_count(slots, id) == 0,
    decreases slots.len(),
{
    reveal_with_fuel(Seq::<ReplaySlot>::filter, 2);
    if slots.len() == 0 {
        assert(slots.filter(|t: ReplaySlot| is_active_human(t) && t.team_id == id) =~= Seq::<
            ReplaySlot,
        >::empty());
    } else {
        let prefix = slots.drop_last();
        let s = slots.last();
        assert(prefix.push(s) =~= slots);
        if is_active_human(s) && !team_ids(prefix).contains(s.team_id) {
            assert(team_ids(slots) == team_ids(prefix).push(s.team_id));
            assert(team_ids(slots)[team_ids(prefix).len() as int] == s.team_id);
            assert(team_ids(slots).contains(s.team_id));
        }
        assert(!team_ids(prefix).contains(id)) by {
            if team_ids(prefix).contains(id) {
                let k = choose|k: int|
                    0 <= k < team_ids(prefix).len() && team_ids(prefix)[k] == id;
                if is_active_human(s) && !team_ids(prefix).contains(s.team_id) {
                    assert(team_ids(slots)[k] == id);
                } else {
                    assert(team_ids(slots)[k] == id);
                }
            }
        }
        lemma_team_count_zero_outside_ids(prefix, id);
        lemma_counts_extend_filter(prefix, s);
        assert(is_active_human(s) && s.team_id == id ==> false) by {
            if is_active_human(s) && s.team_id == id {
                if !team_ids(prefix).contains(s.team_id) {
                    assert(team_ids(slots).last() == id);
                }
            }
        }
    }
}

/// Sort team sizes in descending order (insertion sort).
fn sort_sizes_desc(v: Vec<usize>) -> (r: Vec<usize>)
    ensures
        sorted_by(r@, size_ge()),
        r@.to_multiset() == v@.to_multiset(),
{
    let mut r: Vec<usize> = Vec::new();
    let mut i: usize = 0;
    proof {
        broadcast use vstd::seq_lib::group_to_multiset_ensures;

        assert(v@.subrange(0, 0) =~= Seq::<usize>::empty());
        assert(r@.to_multiset() =~= v@.subrange(0, 0).to_multiset());
    }
    while i < v.len()
        invariant
            i <= v@.len(),
            sorted_by(r@, size_ge()),
            r@.to_multiset() == v@.subrange(0, i as int).to_multiset(),
        decreases v@.len() - i,
    {
        let x = v[i];
        let mut j: usize = 0;
        while j < r.len() && r[j] >= x
            invariant
                j <= r@.len(),
                forall|k: int| 0 <= k < j ==> r@[k] >= x,
            decreases r@.len() - j,
        {
            j += 1;
        }
        let ghost old_r = r@;
        r.insert(j, x);
        proof {
            broadcast use vstd::seq_lib::group_to_multiset_ensures;

            assert(sorted_by(r@, size_ge())) by {
                assert(forall|k: int| 0 <= k < j ==> r@[k] == old_r[k]);
                assert(r@[j as int] == x);
                assert(forall|k: int| j < k < r@.len() ==> r@[k] == old_r[k - 1]);
                assert(j < old_r.len() ==> old_r[j as int] < x);
                assert forall|m: int, n: int| 0 <= m < n < r@.len() implies size_ge()(
                    r@[m],
                    r@[n],
                ) by {
                    if n < j {
                        assert(size_ge()(old_r[m], old_r[n]));
                    } else if m < j && n == j {
                        assert(r@[m] == old_r[m] && r@[n] == x);
                    } else if m < j && n > j {
                        assert(size_ge()(old_r[m], old_r[n - 1]));
                    } else if m == j && n > j {
                        if n - 1 > j {
                            assert(size_ge()(old_r[j as int], old_r[n - 1]));
                        }
                    } else if m > j {
                        assert(size_ge()(old_r[m - 1], old_r[n - 1]));
                    }
                }
            }
            assert(r@.to_multiset() == v@.subrange(0, i + 1).to_multiset()) by {
                assert(r@ =~= old_r.subrange(0, j as int).push(x) + old_r.subrange(
                    j as int,
                    old_r.len() as int,
                ));
                assert(old_r =~= old_r.subrange(0, j as int) + old_r.subrange(
                    j as int,
                    old_r.len() as int,
                ));
                vstd::seq_lib::lemma_multiset_commutative(
                    old_r.subrange(0, j as int).push(x),
                    old_r.subrange(j as int, old_r.len() as int),
                );
                vstd::seq_lib::lemma_multiset_commutative(
                    old_r.subrange(0, j as int),
                    old_r.subrange(j as int, old_r.len() as int),
                );
                assert(v@.subrange(0, i + 1).drop_last() =~= v@.subrange(0, i as int));
                assert(v@.subrange(0, i + 1) =~= v@.subrange(0, i as int).push(x));
            }
        }
        i += 1;
    }
    proof {
        assert(v@.subrange(0, v@.len() as int) =~= v@);
    }
    r
}

/// The players of a replay, AI slots omitted, in slot order.
pub open spec fn players_of_slots(slots: Seq<ReplaySlot>) -> Seq<PlayerInfo> {
    slots.filter(|s: ReplaySlot| s.control != 3).map_values(
        |s: ReplaySlot| PlayerInfo { name: s.name, is_observer: s.observe != 0 },
    )
}

/// Extract the player list from the lobby slots, omitting AI slots.
pub fn players_from_slots(slots: &Vec<ReplaySlot>) -> (r: Vec<PlayerInfo>)
    ensures
        r@ == players_of_slots(slots@),
{
    let mut r: Vec<PlayerInfo> = Vec::new();
    let mut i: usize = 0;
    proof {
        assert(slots@.subrange(0, 0) =~= Seq::<ReplaySlot>::empty());
        reveal_with_fuel(Seq::<ReplaySlot>::filter, 2);
        assert(r@ =~= players_of_slots(slots@.subrange(0, 0)));
    }
    while i < slots.len()
        invariant
            i <= slots@.len(),
            r@ == players_of_slots(slots@.subrange(0, i as int)),
        decreases slots@.len() - i,
    {
        let ghost prefix = slots@.subrange(0, i as int);
        let ghost prefix1 = slots@.subrange(0, i + 1);
        proof {
            assert(prefix1.drop_last() =~= prefix);
            assert(prefix1.last() == slots@[i as int]);
            reveal_with_fuel(Seq::<ReplaySlot>::filter, 2);
        }
        let slot = &slots[i];
        if slot.control != 3 {
            r.push(PlayerInfo { name: slot.name.clone(), is_observer: slot.observe != 0 });
            proof {
                let pred = |s: ReplaySlot| s.control != 3;
                assert(prefix1.filter(pred) == prefix.filter(pred).push(slots@[i as int]));
                assert(r@ =~= players_of_slots(prefix1));
            }
        } else {
            proof {
                let pred = |s: ReplaySlot| s.control != 3;
                assert(prefix1.filter(pred) == prefix.filter(pred));
            }
        }
        i += 1;
    }
    proof {
        assert(slots@.subrange(0, slots@.len() as int) =~= slots@);
    }
    r
}

} // verus!
