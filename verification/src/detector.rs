//! Replay folder discovery: from a listing of the game's accounts directory,
//! the replay folders to watch, one per account and region whose
//! `Replays/Multiplayer` directory exists. Walking the filesystem happens
//! outside and hands its findings in.

use vstd::prelude::*;
use vstd::string::StringExecFns;
use crate::replay_path::{region_label_of, parse_region_from_folder};

verus! {

/// One replay folder: where it lies, whose account it belongs to, and the
/// region its folder name encodes.
#[derive(Debug, Clone)]
pub struct SC2ReplayFolder {
    pub path: String,
    pub account_id: String,
    /// Human-readable region label.
    pub region: String,
    /// The raw region folder name.
    pub region_code: String,
}

/// What the directory walk found: for each account, its region folders and
/// whether each holds a `Replays/Multiplayer` directory.
pub type AccountListing = (String, Vec<(String, bool)>);

/// The expected location of an account region's multiplayer replays.
pub open spec fn multiplayer_path_of(base: Seq<char>, account: Seq<char>, code: Seq<char>) -> Seq<
    char,
> {
    base + "/"@ + account + "/"@ + code + "/Replays/Multiplayer"@
}

/// How many regions of one account hold a multiplayer directory.
pub open spec fn count_regions(rs: Seq<(String, bool)>) -> nat {
    rs.filter(|p: (String, bool)| p.1).len()
}

/// How many listed regions hold a multiplayer directory, over all accounts.
pub open spec fn count_flags(listing: Seq<AccountListing>) -> nat
    decreases listing.len(),
{
    if listing.len() == 0 {
        0
    } else {
        count_flags(listing.drop_last()) + count_regions(listing.last().1@)
    }
}

/// Build the folder list from the directory walk's findings: one folder per
/// listed region with a multiplayer directory — no more and no fewer — each
/// carrying its region label and the path of its multiplayer directory.
pub fn build_replay_folders(accounts_path: &str, listing: &Vec<AccountListing>) -> (r: Vec<
    SC2ReplayFolder,
>)
    ensures
        r@.len() == count_flags(listing@),
        forall|k: int| #![trigger r@[k]]
            0 <= k < r@.len() ==> r@[k].region@ == region_label_of(r@[k].region_code@)
                && r@[k].path@ == multiplayer_path_of(
                accounts_path@,
                r@[k].account_id@,
                r@[k].region_code@,
            ),
        forall|i: int, j: int|
            0 <= i < listing@.len() && 0 <= j < listing@[i].1@.len() && (
            #[trigger] listing@[i].1@[j]).1 ==> exists|k: int|
                0 <= k < r@.len() && (#[trigger] r@[k]).account_id@ == listing@[i].0@
                    && r@[k].region_code@ == listing@[i].1@[j].0@,
{
    let mut r: Vec<SC2ReplayFolder> = Vec::new();
    let mut i: usize = 0;
    proof {
        assert(listing@.take(0) =~= Seq::<AccountListing>::empty());
    }
    while i < listing.len()
        invariant
            i <= listing@.len(),
            r@.len() == count_flags(listing@.take(i as int)),
            forall|k: int| #![trigger r@[k]]
                0 <= k < r@.len() ==> r@[k].region@ == region_label_of(r@[k].region_code@)
                    && r@[k].path@ == multiplayer_path_of(
                    accounts_path@,
                    r@[k].account_id@,
                    r@[k].region_code@,
                ),
            forall|a: int, b: int|
                0 <= a < i && 0 <= b < listing@[a].1@.len() && (#[trigger] listing@[a].1@[b]).1
                    ==> exists|k: int|
                    0 <= k < r@.len() && (#[trigger] r@[k]).account_id@ == listing@[a].0@
                        && r@[k].region_code@ == listing@[a].1@[b].0@,
        decreases listing@.len() - i,
    {
        let account = &listing[i].0;
        let regions = &listing[i].1;
        let ghost rbase = r@.len() as int;
        let mut j: usize = 0;
        proof {
            assert(regions@.take(0) =~= Seq::<(String, bool)>::empty());
            reveal_with_fuel(Seq::<(String, bool)>::filter, 2);
        }
        while j < regions.len()
            invariant
                i < listing@.len(),
                j <= regions@.len(),
                account@ == listing@[i as int].0@,
                regions@ == listing@[i as int].1@,
                rbase == count_flags(listing@.take(i as int)),
                r@.len() == rbase + count_regions(regions@.take(j as int)),
                forall|k: int| #![trigger r@[k]]
                    0 <= k < r@.len() ==> r@[k].region@ == region_label_of(r@[k].region_code@)
                        && r@[k].path@ == multiplayer_path_of(
                        accounts_path@,
                        r@[k].account_id@,
                        r@[k].region_code@,
                    ),
                forall|a: int, b: int|
                    0 <= a < i && 0 <= b < listing@[a].1@.len() && (#[trigger] listing@[a].1@[b]).1
                        ==> exists|k: int|
                        0 <= k < r@.len() && (#[trigger] r@[k]).account_id@ == listing@[a].0@
                            && r@[k].region_code@ == listing@[a].1@[b].0@,
                forall|b: int|
                    0 <= b < j && (#[trigger] regions@[b]).1 ==> exists|k: int|
                        0 <= k < r@.len() && (#[trigger] r@[k]).account_id@ == listing@[i as int].0@
                            && r@[k].region_code@ == regions@[b].0@,
            decreases regions@.len() - j,
        {
            let ghost pre = regions@.take(j as int);
            let ghost pre1 = regions@.take(j + 1);
            let ghost flag_pred = |p: (String, bool)| p.1;
            proof {
                reveal_with_fuel(Seq::<(String, bool)>::filter, 2);
                assert(pre1.drop_last() =~= pre);
                assert(pre1.last() == regions@[j as int]);
                assert(pre1.filter(flag_pred) == if flag_pred(regions@[j as int]) {
                    pre.filter(flag_pred).push(regions@[j as int])
                } else {
                    pre.filter(flag_pred)
                });
            }
            if regions[j].1 {
                let code = &regions[j].0;
                let mut path = String::new();
                path.append(accounts_path);
                path.append("/");
                path.append(account.as_str());
                path.append("/");
                path.append(code.as_str());
                path.append("/Replays/Multiplayer");
                proof {
                    assert(path@ == multiplayer_path_of(accounts_path@, account@, code@));
                }
                let folder = SC2ReplayFolder {
                    path,
                    account_id: account.clone(),
                    region: parse_region_from_folder(code.as_str()),
                    region_code: code.clone(),
                };
                let ghost r0 = r@;
                r.push(folder);
                proof {
                    assert(r@[r@.len() - 1].account_id@ == listing@[i as int].0@);
                    assert(r@[r@.len() - 1].region_code@ == regions@[j as int].0@);
                    assert forall|b: int|
                        0 <= b < j + 1 && (#[trigger] regions@[b]).1 implies exists|k: int|
                            0 <= k < r@.len() && (#[trigger] r@[k]).account_id@ == listing@[
                            i as int].0@ && r@[k].region_code@ == regions@[b].0@ by {
                        if b < j {
                            let k = choose|k: int|
                                0 <= k < r0.len() && (#[trigger] r0[k]).account_id@ == listing@[
                                i as int].0@ && r0[k].region_code@ == regions@[b].0@;
                            assert(r@[k] == r0[k]);
                            assert(r@[k].account_id@ == listing@[i as int].0@);
                        } else {
                            assert(r@[r@.len() - 1].region_code@ == regions@[b].0@);
                        }
                    }
                    assert forall|a: int, b: int|
                        0 <= a < i && 0 <= b < listing@[a].1@.len() && (
                        #[trigger] listing@[a].1@[b]).1 implies exists|k: int|
                            0 <= k < r@.len() && (#[trigger] r@[k]).account_id@ == listing@[a].0@
                                && r@[k].region_code@ == listing@[a].1@[b].0@ by {
                        let k = choose|k: int|
                            0 <= k < r0.len() && (#[trigger] r0[k]).account_id@ == listing@[a].0@
                                && r0[k].region_code@ == listing@[a].1@[b].0@;
                        assert(r@[k] == r0[k]);
                        assert(r@[k].account_id@ == listing@[a].0@);
                    }
                }
            }
            j += 1;
        }
        proof {
            assert(regions@.take(regions@.len() as int) =~= regions@);
            assert(listing@.take(i + 1).drop_last() =~= listing@.take(i as int));
            assert(listing@.take(i + 1).last() == listing@[i as int]);
            assert forall|a: int, b: int|
                0 <= a < i + 1 && 0 <= b < listing@[a].1@.len() && (#[trigger] listing@[a].1@[b]).1
                    implies exists|k: int|
                    0 <= k < r@.len() && (#[trigger] r@[k]).account_id@ == listing@[a].0@
                        && r@[k].region_code@ == listing@[a].1@[b].0@ by {
                if a == i {
                    assert(regions@[b].1);
                }
            }
        }
        i += 1;
    }
    proof {
        assert(listing@.take(listing@.len() as int) =~= listing@);
    }
    r
}

} // verus!
