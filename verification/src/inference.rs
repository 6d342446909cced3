//! Player-identity inference: given parsed replays, find the user's own
//! in-game aliases from how often names appear and with whom they co-occur.

use vstd::prelude::*;
use vstd::string::StringExecFns;
use crate::text::{lower_seq, str_eq, eq_ignore_case};

verus! {

/// One replay's worth of input: its identifier and the players with their
/// observer flags.
pub type ReplayPlayers = (String, Vec<(String, bool)>);

/// The name appears among the replay's active (non-observer) players.
pub open spec fn has_active(players: Seq<(String, bool)>, name: Seq<char>) -> bool {
    exists|k: int|
        0 <= k < players.len() && !(#[trigger] players[k]).1 && players[k].0@ == name
}

/// In how many replays the name appears as an active player.
pub open spec fn freq(d: Seq<ReplayPlayers>, name: Seq<char>) -> nat
    decreases d.len(),
{
    if d.len() == 0 {
        0
    } else {
        freq(d.drop_last(), name) + if has_active(d.last().1@, name) {
            1nat
        } else {
            0nat
        }
    }
}

/// In how many replays both names appear as active players.
pub open spec fn cooc(d: Seq<ReplayPlayers>, a: Seq<char>, b: Seq<char>) -> nat
    decreases d.len(),
{
    if d.len() == 0 {
        0
    } else {
        cooc(d.drop_last(), a, b) + if has_active(d.last().1@, a) && has_active(d.last().1@, b) {
            1nat
        } else {
            0nat
        }
    }
}

/// The name appears as an active player in some replay.
pub open spec fn occurs(d: Seq<ReplayPlayers>, name: Seq<char>) -> bool {
    exists|i: int| 0 <= i < d.len() && has_active((#[trigger] d[i]).1@, name)
}

/// Names the game gives its computer players, compared without regard to
/// ASCII case.
pub open spec fn is_ai_name(name: Seq<char>) -> bool {
    lower_seq(name) == lower_seq("Computer"@) || lower_seq(name) == lower_seq("A.I."@)
        || lower_seq(name) == lower_seq("AI"@) || lower_seq(name) == lower_seq("Bot"@)
}

/// A name judged to belong to the user: it appears in more than one replay,
/// is no computer name, and co-occurs in at most half of its replays with any
/// strictly-more-frequent non-computer name — more than that marks a practice
/// partner or teammate.
pub open spec fn is_user_candidate(d: Seq<ReplayPlayers>, name: Seq<char>) -> bool {
    &&& freq(d, name) > 1
    &&& !is_ai_name(name)
    &&& forall|m: Seq<char>|
        occurs(d, m) && !is_ai_name(m) && #[trigger] freq(d, m) > freq(d, name) ==> 2 * cooc(
            d,
            name,
            m,
        ) <= freq(d, name)
}

/// A positive frequency means the name occurs somewhere.
proof fn lemma_freq_pos_occurs(d: Seq<ReplayPlayers>, name: Seq<char>)
    requires
        freq(d, name) > 0,
    ensures
        occurs(d, name),
    decreases d.len(),
{
    if d.len() > 0 {
        if has_active(d.last().1@, name) {
            assert(d[d.len() - 1] == d.last());
        } else {
            lemma_freq_pos_occurs(d.drop_last(), name);
            let i = choose|i: int|
                0 <= i < d.drop_last().len() && has_active((#[trigger] d.drop_last()[i]).1@, name);
            assert(d[i] == d.drop_last()[i]);
        }
    }
}

fn replay_has_active(players: &Vec<(String, bool)>, nm: &str) -> (r: bool)
    ensures
        r == has_active(players@, nm@),
{
    let mut k: usize = 0;
    while k < players.len()
        invariant
            k <= players@.len(),
            forall|j: int|
                0 <= j < k ==> !(!(#[trigger] players@[j]).1 && players@[j].0@ == nm@),
        decreases players@.len() - k,
    {
        if !players[k].1 && str_eq(players[k].0.as_str(), nm) {
            return true;
        }
        k += 1;
    }
    false
}

fn count_freq(replays: &Vec<ReplayPlayers>, nm: &str) -> (r: usize)
    ensures
        r == freq(replays@, nm@),
{
    let mut acc: usize = 0;
    let mut i: usize = 0;
    proof {
        assert(replays@.take(0) =~= Seq::<ReplayPlayers>::empty());
    }
    while i < replays.len()
        invariant
            i <= replays@.len(),
            acc <= i,
            acc == freq(replays@.take(i as int), nm@),
        decreases replays@.len() - i,
    {
        proof {
            assert(replays@.take(i + 1).drop_last() =~= replays@.take(i as int));
            assert(replays@.take(i + 1).last() == replays@[i as int]);
        }
        if replay_has_active(&replays[i].1, nm) {
            acc += 1;
        }
        i += 1;
    }
    proof {
        assert(replays@.take(replays@.len() as int) =~= replays@);
    }
    acc
}

fn count_cooc(replays: &Vec<ReplayPlayers>, a: &str, b: &str) -> (r: usize)
    ensures
        r == cooc(replays@, a@, b@),
{
    let mut acc: usize = 0;
    let mut i: usize = 0;
    proof {
        assert(replays@.take(0) =~= Seq::<ReplayPlayers>::empty());
    }
    while i < replays.len()
        invariant
            i <= replays@.len(),
            acc <= i,
            acc == cooc(replays@.take(i as int), a@, b@),
        decreases replays@.len() - i,
    {
        proof {
            assert(replays@.take(i + 1).drop_last() =~= replays@.take(i as int));
            assert(replays@.take(i + 1).last() == replays@[i as int]);
        }
        if replay_has_active(&replays[i].1, a) && replay_has_active(&replays[i].1, b) {
            acc += 1;
        }
        i += 1;
    }
    proof {
        assert(replays@.take(replays@.len() as int) =~= replays@);
    }
    acc
}

fn is_ai_player_name(nm: &str) -> (r: bool)
    ensures
        r == is_ai_name(nm@),
{
    eq_ignore_case(nm, "Computer") || eq_ignore_case(nm, "A.I.") || eq_ignore_case(nm, "AI")
        || eq_ignore_case(nm, "Bot")
}

/// Membership of a name among collected name strings.
pub open spec fn name_in(names: Seq<String>, nm: Seq<char>) -> bool {
    exists|i: int| 0 <= i < names.len() && (#[trigger] names[i])@ == nm
}

fn contains_name(names: &Vec<String>, nm: &str) -> (r: bool)
    ensures
        r == name_in(names@, nm@),
{
    let mut i: usize = 0;
    while i < names.len()
        invariant
            i <= names@.len(),
            forall|j: int| 0 <= j < i ==> (#[trigger] names@[j])@ != nm@,
        decreases names@.len() - i,
    {
        if str_eq(names[i].as_str(), nm) {
            return true;
        }
        i += 1;
    }
    false
}

/// Occurrence within the first `i` replays, plus the first `j` players of
/// replay `i`.
pub open spec fn occurs_partial(d: Seq<ReplayPlayers>, i: int, j: int, nm: Seq<char>) -> bool {
    (exists|a: int| 0 <= a < i && has_active((#[trigger] d[a]).1@, nm)) || (0 <= i < d.len()
        && has_active(d[i].1@.take(j), nm))
}

/// Collect the distinct names of active players, in first-appearance order.
fn collect_names(replays: &Vec<ReplayPlayers>) -> (r: Vec<String>)
    ensures
        forall|a: int, b: int| 0 <= a < b < r@.len() ==> (#[trigger] r@[a])@ != (#[trigger] r@[b])@,
        forall|nm: Seq<char>| name_in(r@, nm) <==> occurs(replays@, nm),
{
    let mut names: Vec<String> = Vec::new();
    let mut i: usize = 0;
    while i < replays.len()
        invariant
            i <= replays@.len(),
            forall|a: int, b: int|
                0 <= a < b < names@.len() ==> (#[trigger] names@[a])@ != (#[trigger] names@[b])@,
            forall|nm: Seq<char>| name_in(names@, nm) <==> occurs_partial(replays@, i as int, 0, nm),
        decreases replays@.len() - i,
    {
        let players = &replays[i].1;
        let ghost d = replays@;
        let mut j: usize = 0;
        proof {
            assert forall|nm: Seq<char>|
                occurs_partial(d, i as int, 0, nm) == occurs_partial(
                    d,
                    i as int,
                    j as int,
                    nm,
                ) by {}
        }
        while j < players.len()
            invariant
                d == replays@,
                i < d.len(),
                players@ == d[i as int].1@,
                j <= players@.len(),
                forall|a: int, b: int|
                    0 <= a < b < names@.len() ==> (#[trigger] names@[a])@ != (
                    #[trigger] names@[b])@,
                forall|nm: Seq<char>|
                    name_in(names@, nm) <==> occurs_partial(d, i as int, j as int, nm),
            decreases players@.len() - j,
        {
            let ghost names0 = names@;
            if !players[j].1 {
                if !contains_name(&names, players[j].0.as_str()) {
                    names.push(players[j].0.clone());
                }
            }
            proof {
                let pj = players@[j as int];
                assert forall|nm: Seq<char>|
                    name_in(names@, nm) <==> occurs_partial(d, i as int, j + 1, nm) by {
                    assert(d[i as int].1@.take(j + 1).drop_last() =~= d[i as int].1@.take(
                        j as int,
                    ));
                    assert(d[i as int].1@.take(j + 1).last() == pj);
                    if !pj.1 && pj.0@ == nm {
                        assert(d[i as int].1@.take(j + 1)[j as int] == pj);
                        assert(has_active(d[i as int].1@.take(j + 1), nm));
                        if name_in(names0, nm) {
                            let a = choose|a: int|
                                0 <= a < names0.len() && (#[trigger] names0[a])@ == nm;
                            assert(names@[a]@ == nm);
                        } else {
                            assert(names@[names@.len() - 1]@ == nm);
                        }
                    } else {
                        assert(has_active(d[i as int].1@.take(j + 1), nm) == has_active(
                            d[i as int].1@.take(j as int),
                            nm,
                        )) by {
                            if has_active(d[i as int].1@.take(j + 1), nm) {
                                let k = choose|k: int|
                                    0 <= k < d[i as int].1@.take(j + 1).len() && !(
                                    #[trigger] d[i as int].1@.take(j + 1)[k]).1 && d[i as int].1@.take(
                                        j + 1,
                                    )[k].0@ == nm;
                                if k < j {
                                    assert(d[i as int].1@.take(j as int)[k] == d[i as int].1@.take(
                                        j + 1,
                                    )[k]);
                                }
                            }
                            if has_active(d[i as int].1@.take(j as int), nm) {
                                let k = choose|k: int|
                                    0 <= k < d[i as int].1@.take(j as int).len() && !(
                                    #[trigger] d[i as int].1@.take(j as int)[k]).1 && d[
                                    i as int].1@.take(j as int)[k].0@ == nm;
                                assert(d[i as int].1@.take(j + 1)[k] == d[i as int].1@.take(
                                    j as int,
                                )[k]);
                            }
                        }
                        if name_in(names0, nm) {
                            let a = choose|a: int|
                                0 <= a < names0.len() && (#[trigger] names0[a])@ == nm;
                            assert(names@[a]@ == nm);
                        } else {
                            if name_in(names@, nm) {
                                let a = choose|a: int|
                                    0 <= a < names@.len() && (#[trigger] names@[a])@ == nm;
                                if a < names0.len() {
                                    assert(names0[a]@ == nm);
                                    assert(false);
                                } else {
                                    assert(names@[a]@ == pj.0@);
                                    assert(false);
                                }
                            }
                        }
                    }
                }
            }
            j += 1;
        }
        proof {
            assert forall|nm: Seq<char>|
                occurs_partial(d, i as int, players@.len() as int, nm) == occurs_partial(
                    d,
                    i + 1,
                    0,
                    nm,
                ) by {
                assert(d[i as int].1@.take(players@.len() as int) =~= d[i as int].1@);
                if occurs_partial(d, i as int, players@.len() as int, nm) {
                    if has_active(d[i as int].1@, nm) {
                        assert(0 <= i < i + 1 && has_active((d[i as int]).1@, nm));
                    }
                }
                if occurs_partial(d, i + 1, 0, nm) {
                    let a = choose|a: int| 0 <= a < i + 1 && has_active((#[trigger] d[a]).1@, nm);
                    if a == i {
                        assert(has_active(d[i as int].1@.take(players@.len() as int), nm)) by {
                            assert(d[i as int].1@.take(players@.len() as int) =~= d[i as int].1@);
                        }
                    }
                }
            }
        }
        i += 1;
    }
    proof {
        assert forall|nm: Seq<char>|
            name_in(names@, nm) <==> occurs(replays@, nm) by {
            assert(name_in(names@, nm) <==> occurs_partial(
                replays@,
                replays@.len() as int,
                0,
                nm,
            ));
        }
    }
    names
}

/// Detect the user's likely in-game names from parsed replays. The result
/// holds exactly the user-candidate names, ordered by how often each appears,
/// most frequent first, with no name repeated.
pub fn detect_user_player_names(replays: &Vec<ReplayPlayers>) -> (r: Vec<String>)
    ensures
        forall|a: int| 0 <= a < r@.len() ==> is_user_candidate(replays@, (#[trigger] r@[a])@),
        forall|a: int, b: int| 0 <= a < b < r@.len() ==> (#[trigger] r@[a])@ != (#[trigger] r@[b])@,
        forall|a: int, b: int|
            0 <= a < b < r@.len() ==> freq(replays@, (#[trigger] r@[a])@) >= freq(
                replays@,
                (#[trigger] r@[b])@,
            ),
        forall|nm: Seq<char>| is_user_candidate(replays@, nm) ==> name_in(r@, nm),
{
    let names = collect_names(replays);
    // Pair each name with its frequency.
    let mut pairs: Vec<(String, usize)> = Vec::new();
    let mut i: usize = 0;
    while i < names.len()
        invariant
            i <= names@.len(),
            pairs@.len() == i,
            forall|a: int| 0 <= a < i ==> (#[trigger] pairs@[a]).0@ == names@[a]@,
            forall|a: int|
                0 <= a < i ==> (#[trigger] pairs@[a]).1 == freq(replays@, pairs@[a].0@),
            forall|a: int, b: int|
                0 <= a < b < names@.len() ==> (#[trigger] names@[a])@ != (#[trigger] names@[b])@,
        decreases names@.len() - i,
    {
        let f = count_freq(replays, names[i].as_str());
        pairs.push((names[i].clone(), f));
        i += 1;
    }
    let ghost all_names = names@;
    proof {
        assert forall|nm: Seq<char>| pnames_in(pairs@, nm) <==> name_in(all_names, nm) by {
            if pnames_in(pairs@, nm) {
                let a = choose|a: int| 0 <= a < pairs@.len() && (#[trigger] pairs@[a]).0@ == nm;
                assert(names@[a]@ == nm);
            }
            if name_in(all_names, nm) {
                let a = choose|a: int| 0 <= a < all_names.len() && (#[trigger] all_names[a])@ == nm;
                assert(pairs@[a].0@ == nm);
            }
        }
    }
    let sorted = sort_pairs_desc(pairs);
    proof {
        assert forall|nm: Seq<char>| pnames_in(sorted@, nm) <==> occurs(replays@, nm) by {}
    }
    // Emit each candidate, most frequent first.
    let mut out: Vec<String> = Vec::new();
    let mut idx: usize = 0;
    while idx < sorted.len()
        invariant
            idx <= sorted@.len(),
            forall|a: int|
                0 <= a < sorted@.len() ==> (#[trigger] sorted@[a]).1 == freq(
                    replays@,
                    sorted@[a].0@,
                ),
            forall|a: int, b: int|
                0 <= a < b < sorted@.len() ==> (#[trigger] sorted@[a]).0@ != (
                #[trigger] sorted@[b]).0@,
            forall|a: int, b: int|
                0 <= a < b < sorted@.len() ==> (#[trigger] sorted@[a]).1 >= (
                #[trigger] sorted@[b]).1,
            forall|nm: Seq<char>| pnames_in(sorted@, nm) <==> occurs(replays@, nm),
            forall|a: int| 0 <= a < out@.len() ==> is_user_candidate(replays@, (#[trigger] out@[a])@),
            forall|a: int| #![trigger out@[a]]
                0 <= a < out@.len() ==> exists|k: int|
                    0 <= k < idx && (#[trigger] sorted@[k]).0@ == out@[a]@,
            forall|a: int, b: int|
                0 <= a < b < out@.len() ==> (#[trigger] out@[a])@ != (#[trigger] out@[b])@,
            forall|a: int, b: int|
                0 <= a < b < out@.len() ==> freq(replays@, (#[trigger] out@[a])@) >= freq(
                    replays@,
                    (#[trigger] out@[b])@,
                ),
            forall|a: int|
                0 <= a < out@.len() && idx < sorted@.len() ==> freq(replays@, (#[trigger] out@[a])@)
                    >= sorted@[idx as int].1,
            forall|k: int|
                0 <= k < idx && is_user_candidate(replays@, (#[trigger] sorted@[k]).0@)
                    ==> name_in(out@, sorted@[k].0@),
        decreases sorted@.len() - idx,
    {
        let ghost out0 = out@;
        let name = sorted[idx].0.clone();
        let f = sorted[idx].1;
        let mut keep = f > 1 && !is_ai_player_name(name.as_str());
        if keep {
            // Check the co-occurrence bound against every more frequent,
            // non-computer name.
            let mut k: usize = 0;
            while k < sorted.len() && keep
                invariant
                    k <= sorted@.len(),
                    f == freq(replays@, name@),
                    forall|a: int|
                        0 <= a < sorted@.len() ==> (#[trigger] sorted@[a]).1 == freq(
                            replays@,
                            sorted@[a].0@,
                        ),
                    keep ==> forall|a: int|
                        0 <= a < k && (#[trigger] sorted@[a]).1 > f && !is_ai_name(sorted@[a].0@)
                            ==> 2 * cooc(replays@, name@, sorted@[a].0@) <= f,
                    !keep ==> exists|a: int|
                        0 <= a < sorted@.len() && (#[trigger] sorted@[a]).1 > f && !is_ai_name(
                            sorted@[a].0@,
                        ) && 2 * cooc(replays@, name@, sorted@[a].0@) > f,
                decreases sorted@.len() - k,
            {
                if sorted[k].1 > f && !is_ai_player_name(sorted[k].0.as_str()) {
                    let c = count_cooc(replays, name.as_str(), sorted[k].0.as_str());
                    if c > f / 2 {
                        proof {
                            vstd::arithmetic::div_mod::lemma_fundamental_div_mod(f as int, 2);
                            assert(2 * cooc(replays@, name@, sorted@[k as int].0@) > f);
                        }
                        keep = false;
                    } else {
                        proof {
                            vstd::arithmetic::div_mod::lemma_fundamental_div_mod(f as int, 2);
                            assert(2 * cooc(replays@, name@, sorted@[k as int].0@) <= f);
                        }
                    }
                }
                k += 1;
            }
        }
        if keep {
            proof {
                assert(is_user_candidate(replays@, name@)) by {
                    assert forall|m: Seq<char>|
                        occurs(replays@, m) && !is_ai_name(m) && #[trigger] freq(replays@, m)
                            > freq(replays@, name@) implies 2 * cooc(replays@, name@, m) <= freq(
                        replays@,
                        name@,
                    ) by {
                        assert(pnames_in(sorted@, m));
                        let a = choose|a: int|
                            0 <= a < sorted@.len() && (#[trigger] sorted@[a]).0@ == m;
                        assert(sorted@[a].1 == freq(replays@, m));
                    }
                }
            }
            out.push(name);
            proof {
                assert forall|a: int| #![trigger out@[a]]
                    0 <= a < out@.len() implies exists|k: int|
                        0 <= k < idx + 1 && (#[trigger] sorted@[k]).0@ == out@[a]@ by {
                    if a < out0.len() {
                        let k = choose|k: int|
                            0 <= k < idx && (#[trigger] sorted@[k]).0@ == out0[a]@;
                        assert(sorted@[k].0@ == out@[a]@);
                    } else {
                        assert(sorted@[idx as int].0@ == out@[a]@);
                    }
                }
                assert forall|a: int, b: int|
                    0 <= a < b < out@.len() implies (#[trigger] out@[a])@ != (
                    #[trigger] out@[b])@ by {
                    if b == out@.len() - 1 {
                        let k = choose|k: int|
                            0 <= k < idx && (#[trigger] sorted@[k]).0@ == out0[a]@;
                        assert(sorted@[k].0@ != sorted@[idx as int].0@);
                    }
                }
            }
        } else {
            proof {
                if f > 1 && !is_ai_name(name@) {
                    let a = choose|a: int|
                        0 <= a < sorted@.len() && (#[trigger] sorted@[a]).1 > f && !is_ai_name(
                            sorted@[a].0@,
                        ) && 2 * cooc(replays@, name@, sorted@[a].0@) > f;
                    assert(freq(replays@, sorted@[a].0@) > 0);
                    lemma_freq_pos_occurs(replays@, sorted@[a].0@);
                    assert(!is_user_candidate(replays@, name@));
                } else {
                    assert(!is_user_candidate(replays@, name@));
                }
            }
        }
        proof {
            assert forall|k: int|
                0 <= k < idx + 1 && is_user_candidate(replays@, (#[trigger] sorted@[k]).0@)
                    implies name_in(out@, sorted@[k].0@) by {
                if k < idx {
                    assert(name_in(out0, sorted@[k].0@));
                    let a = choose|a: int|
                        0 <= a < out0.len() && (#[trigger] out0[a])@ == sorted@[k].0@;
                    assert(out@[a]@ == sorted@[k].0@);
                } else {
                    assert(k == idx);
                    assert(sorted@[k].0@ == name@);
                    if keep {
                        assert(out@[out@.len() - 1]@ == sorted@[k].0@);
                    } else {
                        assert(!is_user_candidate(replays@, name@));
                    }
                }
            }
        }
        idx += 1;
    }
    proof {
        assert forall|nm: Seq<char>|
            is_user_candidate(replays@, nm) implies name_in(out@, nm) by {
            assert(freq(replays@, nm) > 1);
            lemma_freq_pos_occurs(replays@, nm);
            assert(pnames_in(sorted@, nm));
            let k = choose|k: int| 0 <= k < sorted@.len() && (#[trigger] sorted@[k]).0@ == nm;
        }
    }
    out
}

/// Membership of a name among name/frequency pairs.
pub open spec fn pnames_in(ps: Seq<(String, usize)>, nm: Seq<char>) -> bool {
    exists|i: int| 0 <= i < ps.len() && (#[trigger] ps[i]).0@ == nm
}

/// Sort name/frequency pairs by frequency, largest first, keeping the pair
/// set, the per-pair facts, and name distinctness.
fn sort_pairs_desc(v: Vec<(String, usize)>) -> (r: Vec<(String, usize)>)
    ensures
        forall|a: int, b: int|
            0 <= a < b < r@.len() ==> (#[trigger] r@[a]).1 >= (#[trigger] r@[b]).1,
        forall|nm: Seq<char>| pnames_in(r@, nm) <==> pnames_in(v@, nm),
        (forall|a: int, b: int|
            0 <= a < b < v@.len() ==> (#[trigger] v@[a]).0@ != (#[trigger] v@[b]).0@) ==> (forall|
            a: int,
            b: int,
        |
            0 <= a < b < r@.len() ==> (#[trigger] r@[a]).0@ != (#[trigger] r@[b]).0@),
        forall|a: int|
            0 <= a < r@.len() ==> exists|b: int|
                0 <= b < v@.len() && (#[trigger] r@[a]) == v@[b],
{
    let mut r: Vec<(String, usize)> = Vec::new();
    let mut i: usize = 0;
    while i < v.len()
        invariant
            i <= v@.len(),
            r@.len() == i,
            forall|a: int, b: int|
                0 <= a < b < r@.len() ==> (#[trigger] r@[a]).1 >= (#[trigger] r@[b]).1,
            forall|nm: Seq<char>| pnames_in(r@, nm) <==> pnames_in(v@.take(i as int), nm),
            forall|a: int| #![trigger r@[a]]
                0 <= a < r@.len() ==> exists|b: int|
                    0 <= b < i && (#[trigger] r@[a]) == v@[b],
            (forall|a: int, b: int|
                0 <= a < b < v@.len() ==> (#[trigger] v@[a]).0@ != (#[trigger] v@[b]).0@) ==> (
            forall|a: int, b: int|
                0 <= a < b < r@.len() ==> (#[trigger] r@[a]).0@ != (#[trigger] r@[b]).0@),
        decreases v@.len() - i,
    {
        let x = (v[i].0.clone(), v[i].1);
        proof {
            assert(x.0@ == v@[i as int].0@);
            assert(x == v@[i as int]);
        }
        let mut j: usize = 0;
        while j < r.len() && r[j].1 >= x.1
            invariant
                j <= r@.len(),
                forall|a: int| 0 <= a < j ==> (#[trigger] r@[a]).1 >= x.1,
            decreases r@.len() - j,
        {
            j += 1;
        }
        let ghost old_r = r@;
        r.insert(j, x);
        proof {
            assert(forall|a: int| 0 <= a < j ==> r@[a] == old_r[a]);
            assert(r@[j as int] == x);
            assert(forall|a: int| j < a < r@.len() ==> r@[a] == old_r[a - 1]);
            assert(j < old_r.len() ==> old_r[j as int].1 < x.1);
            assert forall|a: int, b: int|
                0 <= a < b < r@.len() implies (#[trigger] r@[a]).1 >= (#[trigger] r@[b]).1 by {
                if a < j && b > j {
                    assert(old_r[a].1 >= old_r[b - 1].1);
                } else if a == j && b > j {
                    if b - 1 > j {
                        assert(old_r[j as int].1 >= old_r[b - 1].1);
                    }
                } else if a > j {
                    assert(old_r[a - 1].1 >= old_r[b - 1].1);
                }
            }
            assert forall|nm: Seq<char>|
                pnames_in(r@, nm) <==> pnames_in(v@.take(i + 1), nm) by {
                assert(v@.take(i + 1)[i as int] == v@[i as int]);
                if pnames_in(r@, nm) {
                    let a = choose|a: int| 0 <= a < r@.len() && (#[trigger] r@[a]).0@ == nm;
                    if a == j {
                        assert(v@.take(i + 1)[i as int].0@ == nm);
                    } else if a < j {
                        assert(old_r[a].0@ == nm);
                        let b = choose|b: int| 0 <= b < i && (#[trigger] old_r[a]) == v@[b];
                        assert(v@.take(i + 1)[b].0@ == nm);
                    } else {
                        assert(old_r[a - 1].0@ == nm);
                        let b = choose|b: int| 0 <= b < i && (#[trigger] old_r[a - 1]) == v@[b];
                        assert(v@.take(i + 1)[b].0@ == nm);
                    }
                }
                if pnames_in(v@.take(i + 1), nm) {
                    let b = choose|b: int|
                        0 <= b < v@.take(i + 1).len() && (#[trigger] v@.take(i + 1)[b]).0@ == nm;
                    if b < i {
                        assert(v@.take(i as int)[b].0@ == nm);
                        assert(pnames_in(old_r, nm));
                        let a = choose|a: int|
                            0 <= a < old_r.len() && (#[trigger] old_r[a]).0@ == nm;
                        if a < j {
                            assert(r@[a].0@ == nm);
                        } else {
                            assert(r@[a + 1].0@ == nm);
                        }
                    } else {
                        assert(r@[j as int].0@ == nm);
                    }
                }
            }
            assert forall|a: int| #![trigger r@[a]]
                0 <= a < r@.len() implies exists|b: int|
                    0 <= b < i + 1 && (#[trigger] r@[a]) == v@[b] by {
                if a == j {
                    assert(r@[a] == v@[i as int]);
                } else if a < j {
                    let b = choose|b: int| 0 <= b < i && (#[trigger] old_r[a]) == v@[b];
                    assert(r@[a] == v@[b]);
                } else {
                    let b = choose|b: int| 0 <= b < i && (#[trigger] old_r[a - 1]) == v@[b];
                    assert(r@[a] == v@[b]);
                }
            }
            if forall|a: int, b: int|
                0 <= a < b < v@.len() ==> (#[trigger] v@[a]).0@ != (#[trigger] v@[b]).0@ {
                assert(!pnames_in(old_r, x.0@)) by {
                    if pnames_in(old_r, x.0@) {
                        assert(pnames_in(v@.take(i as int), x.0@));
                        let b = choose|b: int|
                            0 <= b < v@.take(i as int).len() && (#[trigger] v@.take(i as int)[b]).0@
                                == x.0@;
                        assert(v@[b].0@ != v@[i as int].0@);
                    }
                }
                assert forall|a: int, b: int|
                    0 <= a < b < r@.len() implies (#[trigger] r@[a]).0@ != (#[trigger] r@[b]).0@ by {
                    if a == j {
                        assert(old_r[b - 1].0@ != x.0@);
                    } else if b == j {
                        assert(old_r[a].0@ != x.0@);
                    } else {
                        let oa: int = if a < j {
                            a
                        } else {
                            a - 1
                        };
                        let ob: int = if b < j {
                            b
                        } else {
                            b - 1
                        };
                        assert(old_r[oa].0@ != old_r[ob].0@);
                    }
                }
            }
        }
        i += 1;
    }
    proof {
        assert(v@.take(v@.len() as int) =~= v@);
    }
    r
}

} // verus!
