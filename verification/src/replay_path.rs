//! Path logic: recognising replay files by their extension, and reading the
//! region out of the folder names the game uses.

use vstd::prelude::*;
use vstd::string::StringExecFns;
use crate::text::{chars_vec, char_lower, lower_char, lower_seq};

verus! {

/// The final component of a path: everything after the last separator.
pub open spec fn file_component(s: Seq<char>) -> Seq<char>
    decreases s.len(),
{
    if s.len() == 0 {
        Seq::empty()
    } else if s.last() == '/' {
        Seq::empty()
    } else {
        file_component(s.drop_last()).push(s.last())
    }
}

/// The extension of a file name: what follows the last dot, provided the dot
/// is neither the whole name's first character nor absent.
pub open spec fn extension_of(comp: Seq<char>) -> Option<Seq<char>>
    decreases comp.len(),
{
    if comp.len() <= 1 {
        None
    } else if comp.last() == '.' {
        Some(Seq::empty())
    } else {
        match extension_of(comp.drop_last()) {
            None => None,
            Some(e) => Some(e.push(comp.last())),
        }
    }
}

/// The replay extension, compared without regard to ASCII case.
pub open spec fn is_replay_ext(e: Seq<char>) -> bool {
    lower_seq(e) == lower_seq("SC2Replay"@)
}

/// A path names a replay file exactly when its final component carries the
/// replay extension, in any ASCII casing.
pub open spec fn is_sc2_replay_spec(path: Seq<char>) -> bool {
    match extension_of(file_component(path)) {
        None => false,
        Some(e) => is_replay_ext(e),
    }
}

/// When a separator stands at `j` with none after it, the final component is
/// everything past `j`.
proof fn lemma_file_component_after(s: Seq<char>, j: int)
    requires
        0 <= j < s.len(),
        s[j] == '/',
        forall|k: int| j < k < s.len() ==> s[k] != '/',
    ensures
        file_component(s) == s.subrange(j + 1, s.len() as int),
    decreases s.len(),
{
    if j == s.len() - 1 {
        assert(s.subrange(j + 1, s.len() as int) =~= Seq::<char>::empty());
    } else {
        assert(s.last() != '/');
        lemma_file_component_after(s.drop_last(), j);
        assert(s.drop_last().subrange(j + 1, s.len() - 1).push(s.last()) =~= s.subrange(
            j + 1,
            s.len() as int,
        ));
    }
}

/// Without any separator, the final component is the whole path.
proof fn lemma_file_component_whole(s: Seq<char>)
    requires
        forall|k: int| 0 <= k < s.len() ==> s[k] != '/',
    ensures
        file_component(s) == s,
    decreases s.len(),
{
    if s.len() > 0 {
        lemma_file_component_whole(s.drop_last());
        assert(s.drop_last().push(s.last()) =~= s);
    }
}

/// When a dot stands at `j >= 1` with none after it, the extension is
/// everything past `j`.
proof fn lemma_extension_after(comp: Seq<char>, j: int)
    requires
        1 <= j < comp.len(),
        comp[j] == '.',
        forall|k: int| j < k < comp.len() ==> comp[k] != '.',
    ensures
        extension_of(comp) == Some(comp.subrange(j + 1, comp.len() as int)),
    decreases comp.len(),
{
    if j == comp.len() - 1 {
        assert(comp.subrange(j + 1, comp.len() as int) =~= Seq::<char>::empty());
    } else {
        assert(comp.last() != '.');
        lemma_extension_after(comp.drop_last(), j);
        assert(comp.drop_last().subrange(j + 1, comp.len() - 1).push(comp.last()) =~= comp.subrange(
            j + 1,
            comp.len() as int,
        ));
    }
}

/// Without a dot past the first character, there is no extension.
proof fn lemma_extension_none(comp: Seq<char>)
    requires
        forall|k: int| 1 <= k < comp.len() ==> comp[k] != '.',
    ensures
        extension_of(comp) is None,
    decreases comp.len(),
{
    if comp.len() > 1 {
        assert(comp.last() != '.');
        lemma_extension_none(comp.drop_last());
    }
}

/// Whether a path names a replay file: its extension is `SC2Replay` in any
/// ASCII casing. A path without an extension never qualifies.
pub fn is_sc2_replay(path: &str) -> (r: bool)
    ensures
        r == is_sc2_replay_spec(path@),
{
    let cs = chars_vec(path);
    let n = cs.len();
    // Start of the final component.
    let mut start: usize = n;
    while start > 0 && cs[start - 1] != '/'
        invariant
            start <= n,
            n == cs@.len(),
            cs@ == path@,
            forall|k: int| start <= k < n ==> cs@[k] != '/',
        decreases start,
    {
        start -= 1;
    }
    proof {
        if start == 0 {
            lemma_file_component_whole(cs@);
            assert(cs@.subrange(0, n as int) =~= cs@);
        } else {
            lemma_file_component_after(cs@, start - 1);
        }
    }
    let ghost comp = file_component(path@);
    proof {
        assert(comp =~= cs@.subrange(start as int, n as int));
    }
    // Position after the last dot of the component.
    let mut dot: usize = n;
    while dot > start && cs[dot - 1] != '.'
        invariant
            start <= dot <= n,
            n == cs@.len(),
            cs@ == path@,
            forall|k: int| dot <= k < n ==> cs@[k] != '.',
        decreases dot,
    {
        dot -= 1;
    }
    if dot == start {
        // No dot at all in the component.
        proof {
            assert forall|k: int| 1 <= k < comp.len() implies comp[k] != '.' by {
                assert(comp[k] == cs@[start + k]);
            }
            lemma_extension_none(comp);
        }
        return false;
    }
    if dot == start + 1 {
        // The only dot heads the component: a dot-file has no extension.
        proof {
            assert(comp[0] == cs@[start as int]);
            assert forall|k: int| 1 <= k < comp.len() implies comp[k] != '.' by {
                assert(comp[k] == cs@[start + k]);
            }
            lemma_extension_none(comp);
        }
        return false;
    }
    proof {
        assert(comp[dot - 1 - start] == cs@[dot - 1]);
        assert forall|k: int| dot - start <= k < comp.len() implies comp[k] != '.' by {
            assert(comp[k] == cs@[start + k]);
        }
        lemma_extension_after(comp, dot - 1 - start);
    }
    let ghost ext = comp.subrange(dot - start, comp.len() as int);
    proof {
        assert forall|k: int| 0 <= k < ext.len() implies ext[k] == cs@[dot + k] by {
            assert(ext[k] == comp[dot - start + k]);
            assert(comp[dot - start + k] == cs@[start + (dot - start + k)]);
        }
    }
    // Compare the extension with the replay extension, case-insensitively.
    let expected = chars_vec("SC2Replay");
    if n - dot != expected.len() {
        proof {
            assert(lower_seq(ext).len() == ext.len());
            assert(lower_seq("SC2Replay"@).len() == "SC2Replay"@.len());
            assert(ext.len() == n - dot);
            assert("SC2Replay"@.len() == expected@.len());
            assert(lower_seq(ext) != lower_seq("SC2Replay"@));
        }
        return false;
    }
    let mut m: usize = 0;
    while m < expected.len()
        invariant
            n == cs@.len(),
            cs@ == path@,
            expected@ == "SC2Replay"@,
            m <= expected@.len(),
            n - dot == expected@.len(),
            dot + expected@.len() <= n,
            ext.len() == expected@.len(),
            extension_of(file_component(path@)) == Some(ext),
            forall|k: int| 0 <= k < ext.len() ==> ext[k] == cs@[dot + k],
            forall|k: int| 0 <= k < m ==> lower_char(ext[k]) == lower_char(expected@[k]),
        decreases expected@.len() - m,
    {
        if char_lower(cs[dot + m]) != char_lower(expected[m]) {
            proof {
                assert(lower_seq(ext)[m as int] != lower_seq("SC2Replay"@)[m as int]);
            }
            return false;
        }
        m += 1;
    }
    proof {
        assert(lower_seq(ext) =~= lower_seq("SC2Replay"@));
    }
    true
}

/// Law: a path whose final component has no extension is never taken for a
/// replay.
pub proof fn lemma_no_extension_not_replay(path: Seq<char>)
    requires
        extension_of(file_component(path)) is None,
    ensures
        !is_sc2_replay_spec(path),
{
}

/// Law: the replay test is ASCII-case-insensitive on the extension: two paths
/// whose extensions agree up to ASCII case classify alike.
pub proof fn lemma_replay_case_insensitive(p1: Seq<char>, p2: Seq<char>, e1: Seq<char>, e2: Seq<
    char,
>)
    requires
        extension_of(file_component(p1)) == Some(e1),
        extension_of(file_component(p2)) == Some(e2),
        lower_seq(e1) == lower_seq(e2),
    ensures
        is_sc2_replay_spec(p1) == is_sc2_replay_spec(p2),
{
}

// ---------------------------------------------------------------------------
// Regions
// ---------------------------------------------------------------------------

/// The human label of a region folder name: its leading digit decides.
pub open spec fn region_label_of(code: Seq<char>) -> Seq<char> {
    if code.len() >= 2 && code[0] == '1' && code[1] == '-' {
        "NA"@
    } else if code.len() >= 2 && code[0] == '2' && code[1] == '-' {
        "EU"@
    } else if code.len() >= 2 && code[0] == '3' && code[1] == '-' {
        "KR"@
    } else if code.len() >= 2 && code[0] == '5' && code[1] == '-' {
        "CN"@
    } else {
        "Unknown"@
    }
}

/// A component that names a known region: a recognised digit and a dash.
pub open spec fn known_region_prefix(comp: Seq<char>) -> bool {
    comp.len() >= 2 && comp[1] == '-' && (comp[0] == '1' || comp[0] == '2' || comp[0] == '3'
        || comp[0] == '5')
}

/// Map a region folder name such as `1-S2-1-802768` to its region label;
/// an unrecognised prefix maps to `Unknown`.
pub fn parse_region_from_folder(folder_name: &str) -> (r: String)
    ensures
        r@ == region_label_of(folder_name@),
{
    let cs = chars_vec(folder_name);
    if cs.len() >= 2 && cs[1] == '-' {
        if cs[0] == '1' {
            return String::from_str("NA");
        }
        if cs[0] == '2' {
            return String::from_str("EU");
        }
        if cs[0] == '3' {
            return String::from_str("KR");
        }
        if cs[0] == '5' {
            return String::from_str("CN");
        }
    }
    String::from_str("Unknown")
}

/// Index of the first separator, or the length if there is none.
pub open spec fn first_sep(s: Seq<char>) -> int
    decreases s.len(),
{
    if s.len() == 0 {
        0
    } else if s[0] == '/' {
        0
    } else {
        1 + first_sep(s.drop_first())
    }
}

/// The region named by the first path component with a known region prefix,
/// scanning components left to right.
pub open spec fn region_from_path(s: Seq<char>) -> Option<Seq<char>>
    decreases s.len(),
{
    let k = first_sep(s);
    let c = s.subrange(0, if 0 <= k && k <= s.len() {
        k
    } else {
        0
    });
    if known_region_prefix(c) {
        Some(region_label_of(c))
    } else if 0 <= k && k < s.len() {
        region_from_path(s.subrange(k + 1, s.len() as int))
    } else {
        None
    }
}

/// The first separator at or after `start` is where the scan says.
proof fn lemma_first_sep_at(s: Seq<char>, start: int, j: int)
    requires
        0 <= start <= j <= s.len(),
        forall|k: int| start <= k < j ==> s[k] != '/',
        j == s.len() || s[j] == '/',
    ensures
        first_sep(s.skip(start)) == j - start,
    decreases j - start,
{
    let t = s.skip(start);
    if start == j {
        if j < s.len() {
            assert(t[0] == s[j]);
        }
    } else {
        assert(t[0] == s[start]);
        assert(t.drop_first() =~= s.skip(start + 1));
        lemma_first_sep_at(s, start + 1, j);
    }
}

/// Derive a region from a replay's path by scanning its components for a
/// region folder name; `None` when no component carries a known prefix.
pub fn extract_region_from_path(path: &str) -> (r: Option<String>)
    ensures
        match r {
            Some(l) => region_from_path(path@) == Some(l@),
            None => region_from_path(path@) is None,
        },
{
    let cs = chars_vec(path);
    let n = cs.len();
    let mut start: usize = 0;
    proof {
        assert(cs@.skip(0) =~= cs@);
    }
    loop
        invariant
            start <= n,
            n == cs@.len(),
            cs@ == path@,
            region_from_path(path@) == region_from_path(cs@.skip(start as int)),
        decreases n - start,
    {
        // Find the end of this component.
        let mut j: usize = start;
        while j < n && cs[j] != '/'
            invariant
                start <= j <= n,
                n == cs@.len(),
                forall|k: int| start <= k < j ==> cs@[k] != '/',
            decreases n - j,
        {
            j += 1;
        }
        proof {
            lemma_first_sep_at(cs@, start as int, j as int);
            assert(cs@.skip(start as int).subrange(0, j - start) =~= cs@.subrange(
                start as int,
                j as int,
            ));
        }
        let ghost comp = cs@.subrange(start as int, j as int);
        if j - start >= 2 && cs[start + 1] == '-' && (cs[start] == '1' || cs[start] == '2'
            || cs[start] == '3' || cs[start] == '5') {
            proof {
                assert(comp[0] == cs@[start as int]);
                assert(comp[1] == cs@[start + 1]);
                assert(known_region_prefix(comp));
            }
            let c0 = cs[start];
            if c0 == '1' {
                return Some(String::from_str("NA"));
            } else if c0 == '2' {
                return Some(String::from_str("EU"));
            } else if c0 == '3' {
                return Some(String::from_str("KR"));
            } else {
                return Some(String::from_str("CN"));
            }
        }
        proof {
            if comp.len() >= 2 {
                assert(comp[0] == cs@[start as int]);
                assert(comp[1] == cs@[start + 1]);
            }
            assert(!known_region_prefix(comp));
        }
        if j == n {
            return None;
        }
        proof {
            assert(cs@.skip(start as int).subrange(
                j - start + 1,
                cs@.skip(start as int).len() as int,
            ) =~= cs@.skip(j + 1));
        }
        start = j + 1;
    }
}

} // verus!
