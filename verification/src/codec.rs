//! The persisted form of the replay tracker: a JSON document
//! `{"replays":{<hash>:<entry>,...},"total_uploaded":<n>,"manifest_version":<v>}`.
//!
//! The writer emits a canonical compact document. The reader accepts the
//! documents this agent writes and those persisted by its earlier versions:
//! the same member layout, with arbitrary whitespace between tokens, an
//! optional `manifest_version` member, and — in historical documents — an
//! integer in place of the version string, which normalises to the empty
//! string so that the next server check forces a full re-sync.

use vstd::prelude::*;
use vstd::utf8::is_scalar;
use crate::tracker::{TrackedReplay, TrackedReplayModel, TrackerModel, ReplayTracker,
    hashes_unique};
use crate::text::{chars_vec, string_from_chars, str_eq, chars_eq_str};

verus! {

// ---------------------------------------------------------------------------
// Characters and digits
// ---------------------------------------------------------------------------

pub open spec fn is_ws_char(c: char) -> bool {
    c == ' ' || c == '\n' || c == '\t' || c == '\r'
}

pub open spec fn is_dec_digit(c: char) -> bool {
    '0' <= c && c <= '9'
}

/// Numeric value of a decimal digit character.
pub open spec fn dec_val(c: char) -> nat {
    (c as u32 - '0' as u32) as nat
}

/// The decimal digit character for a value below ten.
pub open spec fn dec_digit_char(n: nat) -> char {
    if n == 0 {
        '0'
    } else if n == 1 {
        '1'
    } else if n == 2 {
        '2'
    } else if n == 3 {
        '3'
    } else if n == 4 {
        '4'
    } else if n == 5 {
        '5'
    } else if n == 6 {
        '6'
    } else if n == 7 {
        '7'
    } else if n == 8 {
        '8'
    } else {
        '9'
    }
}

/// The lowercase hex digit character for a value below sixteen.
pub open spec fn hex_digit_char(n: nat) -> char {
    if n < 10 {
        dec_digit_char(n)
    } else if n == 10 {
        'a'
    } else if n == 11 {
        'b'
    } else if n == 12 {
        'c'
    } else if n == 13 {
        'd'
    } else if n == 14 {
        'e'
    } else {
        'f'
    }
}

/// Value of a hex digit character, upper or lower case; 16 marks a non-digit.
pub open spec fn hex_val(c: char) -> nat {
    if is_dec_digit(c) {
        dec_val(c)
    } else if 'a' <= c && c <= 'f' {
        (c as u32 - 'a' as u32 + 10) as nat
    } else if 'A' <= c && c <= 'F' {
        (c as u32 - 'A' as u32 + 10) as nat
    } else {
        16
    }
}

pub open spec fn is_hex_digit(c: char) -> bool {
    hex_val(c) < 16
}

/// Decimal digit string of a number, most significant digit first.
pub open spec fn dec_digits(n: nat) -> Seq<char>
    decreases n,
{
    if n < 10 {
        seq![dec_digit_char(n)]
    } else {
        dec_digits(n / 10).push(dec_digit_char(n % 10))
    }
}

/// The number denoted by a digit string.
pub open spec fn val_of_digits(ds: Seq<char>) -> nat
    decreases ds.len(),
{
    if ds.len() == 0 {
        0
    } else {
        val_of_digits(ds.drop_last()) * 10 + dec_val(ds.last())
    }
}

// ---------------------------------------------------------------------------
// Encoding
// ---------------------------------------------------------------------------

/// How one character appears inside a JSON string: quotes and backslashes are
/// escaped, control characters take the `\u00xy` form, all else is itself.
pub open spec fn escape_char(c: char) -> Seq<char> {
    if c == '"' {
        seq!['\\', '"']
    } else if c == '\\' {
        seq!['\\', '\\']
    } else if (c as u32) < 0x20 {
        seq!['\\', 'u', '0', '0', hex_digit_char((c as u32 / 16) as nat), hex_digit_char(
            (c as u32 % 16) as nat,
        )]
    } else {
        seq![c]
    }
}

pub open spec fn escape_string(s: Seq<char>) -> Seq<char>
    decreases s.len(),
{
    if s.len() == 0 {
        Seq::empty()
    } else {
        escape_char(s[0]) + escape_string(s.drop_first())
    }
}

/// A whole JSON string token, quotes included.
pub open spec fn encode_json_string(s: Seq<char>) -> Seq<char> {
    seq!['"'] + escape_string(s) + seq!['"']
}

/// One tracked replay as a JSON object, members in canonical order.
pub open spec fn encode_replay(r: TrackedReplayModel) -> Seq<char> {
    seq!['{'] + encode_json_string("hash"@) + seq![':'] + encode_json_string(r.hash) + seq![',']
        + encode_json_string("filename"@) + seq![':'] + encode_json_string(r.filename) + seq![',']
        + encode_json_string("filesize"@) + seq![':'] + dec_digits(r.filesize as nat) + seq![',']
        + encode_json_string("uploaded_at"@) + seq![':'] + dec_digits(r.uploaded_at as nat)
        + seq![','] + encode_json_string("filepath"@) + seq![':'] + encode_json_string(r.filepath)
        + seq!['}']
}

/// One member of the replays object: the hash as key, the replay as value.
pub open spec fn encode_entry(r: TrackedReplayModel) -> Seq<char> {
    encode_json_string(r.hash) + seq![':'] + encode_replay(r)
}

/// The members after the first, each preceded by a comma.
pub open spec fn encode_entries_tail(entries: Seq<TrackedReplayModel>) -> Seq<char>
    decreases entries.len(),
{
    if entries.len() == 0 {
        Seq::empty()
    } else {
        seq![','] + encode_entry(entries[0]) + encode_entries_tail(entries.drop_first())
    }
}

/// All members of the replays object, comma-separated.
pub open spec fn encode_entries(entries: Seq<TrackedReplayModel>) -> Seq<char> {
    if entries.len() == 0 {
        Seq::empty()
    } else {
        encode_entry(entries[0]) + encode_entries_tail(entries.drop_first())
    }
}

/// The whole persisted document, in canonical compact form.
pub open spec fn encode_tracker(t: TrackerModel) -> Seq<char> {
    seq!['{'] + encode_json_string("replays"@) + seq![':'] + seq!['{'] + encode_entries(t.entries)
        + seq!['}'] + seq![','] + encode_json_string("total_uploaded"@) + seq![':'] + dec_digits(
        t.entries.len(),
    ) + seq![','] + encode_json_string("manifest_version"@) + seq![':'] + encode_json_string(
        t.manifest_version,
    ) + seq!['}']
}

// ---------------------------------------------------------------------------
// Encoding: executable
// ---------------------------------------------------------------------------

/// Appending a character extends the escaped form at the end.
proof fn lemma_escape_push(s: Seq<char>, c: char)
    ensures
        escape_string(s.push(c)) == escape_string(s) + escape_char(c),
    decreases s.len(),
{
    let p = s.push(c);
    if s.len() == 0 {
        assert(p[0] == c);
        assert(p.drop_first() =~= Seq::<char>::empty());
        assert(escape_string(p) == escape_char(c) + escape_string(Seq::<char>::empty()));
        assert(escape_char(c) + Seq::<char>::empty() =~= escape_char(c));
        assert(escape_string(s) + escape_char(c) =~= escape_char(c));
    } else {
        assert(p[0] == s[0]);
        assert(p.drop_first() =~= s.drop_first().push(c));
        lemma_escape_push(s.drop_first(), c);
        assert(escape_string(p) == escape_char(s[0]) + (escape_string(s.drop_first())
            + escape_char(c)));
        assert(escape_char(s[0]) + (escape_string(s.drop_first()) + escape_char(c)) =~= (
        escape_char(s[0]) + escape_string(s.drop_first())) + escape_char(c));
    }
}

fn push_hex_digit(out: &mut Vec<char>, n: u32)
    requires
        n < 16,
    ensures
        final(out)@ == old(out)@.push(hex_digit_char(n as nat)),
{
    if n < 10 {
        push_dec_digit(out, n);
    } else if n == 10 {
        out.push('a');
    } else if n == 11 {
        out.push('b');
    } else if n == 12 {
        out.push('c');
    } else if n == 13 {
        out.push('d');
    } else if n == 14 {
        out.push('e');
    } else {
        out.push('f');
    }
}

fn push_dec_digit(out: &mut Vec<char>, n: u32)
    requires
        n < 10,
    ensures
        final(out)@ == old(out)@.push(dec_digit_char(n as nat)),
{
    if n == 0 {
        out.push('0');
    } else if n == 1 {
        out.push('1');
    } else if n == 2 {
        out.push('2');
    } else if n == 3 {
        out.push('3');
    } else if n == 4 {
        out.push('4');
    } else if n == 5 {
        out.push('5');
    } else if n == 6 {
        out.push('6');
    } else if n == 7 {
        out.push('7');
    } else if n == 8 {
        out.push('8');
    } else {
        out.push('9');
    }
}

/// Append the JSON string token for `s` to `out`.
fn push_json_string(out: &mut Vec<char>, s: &str)
    ensures
        final(out)@ == old(out)@ + encode_json_string(s@),
{
    let cs = chars_vec(s);
    out.push('"');
    let mut i: usize = 0;
    proof {
        assert(cs@.take(0) =~= Seq::<char>::empty());
        assert(out@ =~= old(out)@ + seq!['"'] + escape_string(cs@.take(0)));
    }
    while i < cs.len()
        invariant
            cs@ == s@,
            i <= cs@.len(),
            out@ == old(out)@ + seq!['"'] + escape_string(cs@.take(i as int)),
        decreases cs@.len() - i,
    {
        let c = cs[i];
        proof {
            assert(cs@.take(i + 1) =~= cs@.take(i as int).push(c));
            lemma_escape_push(cs@.take(i as int), c);
        }
        if c == '"' {
            out.push('\\');
            out.push('"');
        } else if c == '\\' {
            out.push('\\');
            out.push('\\');
        } else if (c as u32) < 0x20 {
            out.push('\\');
            out.push('u');
            out.push('0');
            out.push('0');
            push_hex_digit(out, (c as u32) / 16);
            push_hex_digit(out, (c as u32) % 16);
        } else {
            out.push(c);
        }
        proof {
            assert(out@ =~= old(out)@ + seq!['"'] + escape_string(cs@.take(i + 1)));
        }
        i += 1;
    }
    out.push('"');
    proof {
        assert(cs@.take(cs@.len() as int) =~= s@);
        assert(out@ =~= old(out)@ + encode_json_string(s@));
    }
}

/// Append the decimal digits of `n` to `out`.
fn push_u64(out: &mut Vec<char>, n: u64)
    ensures
        final(out)@ == old(out)@ + dec_digits(n as nat),
    decreases n,
{
    if n < 10 {
        push_dec_digit(out, n as u32);
        proof {
            assert(out@ =~= old(out)@ + dec_digits(n as nat));
        }
    } else {
        proof {
            assert(n / 10 < n) by (nonlinear_arith)
                requires
                    n >= 10,
            ;
            assert((n / 10) as nat == (n as nat) / 10);
            assert((n % 10) as nat == (n as nat) % 10);
        }
        push_u64(out, n / 10);
        push_dec_digit(out, (n % 10) as u32);
        proof {
            assert(out@ =~= old(out)@ + dec_digits(n as nat));
        }
    }
}

/// Append one replay object to `out`.
#[verifier::rlimit(50)]
fn push_replay(out: &mut Vec<char>, r: &TrackedReplay)
    ensures
        final(out)@ == old(out)@ + encode_replay(r@),
{
    out.push('{');
    push_json_string(out, "hash");
    out.push(':');
    push_json_string(out, r.hash.as_str());
    out.push(',');
    push_json_string(out, "filename");
    out.push(':');
    push_json_string(out, r.filename.as_str());
    out.push(',');
    push_json_string(out, "filesize");
    out.push(':');
    push_u64(out, r.filesize);
    out.push(',');
    push_json_string(out, "uploaded_at");
    out.push(':');
    push_u64(out, r.uploaded_at);
    out.push(',');
    push_json_string(out, "filepath");
    out.push(':');
    push_json_string(out, r.filepath.as_str());
    out.push('}');
    proof {
        assert(out@ =~= old(out)@ + encode_replay(r@));
    }
}

/// Each appended entry extends the tail encoding by a comma and the entry.
proof fn lemma_entries_tail_push(entries: Seq<TrackedReplayModel>, r: TrackedReplayModel)
    ensures
        encode_entries_tail(entries.push(r)) == encode_entries_tail(entries) + seq![',']
            + encode_entry(r),
    decreases entries.len(),
{
    let p = entries.push(r);
    if entries.len() == 0 {
        assert(p[0] == r);
        assert(p.drop_first() =~= Seq::<TrackedReplayModel>::empty());
        assert(encode_entries_tail(p) == seq![','] + encode_entry(r) + encode_entries_tail(
            Seq::<TrackedReplayModel>::empty(),
        ));
        assert(seq![','] + encode_entry(r) + Seq::<char>::empty() =~= encode_entries_tail(entries)
            + seq![','] + encode_entry(r));
    } else {
        assert(p[0] == entries[0]);
        assert(p.drop_first() =~= entries.drop_first().push(r));
        lemma_entries_tail_push(entries.drop_first(), r);
        assert(encode_entries_tail(p) =~= encode_entries_tail(entries) + seq![','] + encode_entry(
            r,
        ));
    }
}

proof fn lemma_entries_push(entries: Seq<TrackedReplayModel>, r: TrackedReplayModel)
    ensures
        encode_entries(entries.push(r)) == if entries.len() == 0 {
            encode_entry(r)
        } else {
            encode_entries(entries) + seq![','] + encode_entry(r)
        },
{
    let p = entries.push(r);
    if entries.len() == 0 {
        assert(p.drop_first() =~= Seq::<TrackedReplayModel>::empty());
        assert(encode_entries(p) =~= encode_entry(r));
    } else {
        assert(p[0] == entries[0]);
        assert(p.drop_first() =~= entries.drop_first().push(r));
        lemma_entries_tail_push(entries.drop_first(), r);
        assert(encode_entries(p) =~= encode_entries(entries) + seq![','] + encode_entry(r));
    }
}

/// Serialize a tracker into its canonical persisted document.
#[verifier::rlimit(60)]
pub fn serialize_tracker(t: &ReplayTracker) -> (r: String)
    ensures
        r@ == encode_tracker(t@),
{
    let mut out: Vec<char> = Vec::new();
    out.push('{');
    push_json_string(&mut out, "replays");
    out.push(':');
    out.push('{');
    let ghost header = out@;
    let mut i: usize = 0;
    proof {
        assert(t@.entries.take(0) =~= Seq::<TrackedReplayModel>::empty());
        assert(out@ =~= header + encode_entries(t@.entries.take(0)));
    }
    while i < t.replays.len()
        invariant
            i <= t.replays@.len(),
            t@.entries.len() == t.replays@.len(),
            forall|j: int| 0 <= j < t.replays@.len() ==> t@.entries[j] == #[trigger] t.replays@[j]@,
            out@ == header + encode_entries(t@.entries.take(i as int)),
        decreases t.replays@.len() - i,
    {
        if i > 0 {
            out.push(',');
        }
        push_replay_entry(&mut out, &t.replays[i]);
        proof {
            assert(t@.entries.take(i + 1) =~= t@.entries.take(i as int).push(t@.entries[i as int]));
            lemma_entries_push(t@.entries.take(i as int), t@.entries[i as int]);
            assert(out@ =~= header + encode_entries(t@.entries.take(i + 1)));
        }
        i += 1;
    }
    proof {
        assert(t@.entries.take(t@.entries.len() as int) =~= t@.entries);
    }
    out.push('}');
    out.push(',');
    push_json_string(&mut out, "total_uploaded");
    out.push(':');
    let total = t.replays.len();
    push_u64(&mut out, total as u64);
    out.push(',');
    push_json_string(&mut out, "manifest_version");
    out.push(':');
    push_json_string(&mut out, t.manifest_version.as_str());
    out.push('}');
    proof {
        assert(out@ =~= encode_tracker(t@));
    }
    string_from_chars(&out)
}

/// Append one replays-object member: the hash key, a colon, the replay.
fn push_replay_entry(out: &mut Vec<char>, r: &TrackedReplay)
    ensures
        final(out)@ == old(out)@ + encode_entry(r@),
{
    push_json_string(out, r.hash.as_str());
    out.push(':');
    push_replay(out, r);
    proof {
        assert(out@ =~= old(out)@ + encode_entry(r@));
    }
}

// ---------------------------------------------------------------------------
// Parsing: specification
// ---------------------------------------------------------------------------

/// First position at or after `i` holding a non-whitespace character.
pub open spec fn skip_ws(s: Seq<char>, i: int) -> int
    decreases s.len() - i,
{
    if 0 <= i && i < s.len() && is_ws_char(s[i]) {
        skip_ws(s, i + 1)
    } else {
        i
    }
}

/// The character denoted by a single-character escape, `\u` aside.
pub open spec fn unescape_simple(e: char) -> Option<char> {
    if e == '"' {
        Some('"')
    } else if e == '\\' {
        Some('\\')
    } else if e == '/' {
        Some('/')
    } else if e == 'b' {
        Some('\u{8}')
    } else if e == 'f' {
        Some('\u{c}')
    } else if e == 'n' {
        Some('\n')
    } else if e == 'r' {
        Some('\r')
    } else if e == 't' {
        Some('\t')
    } else {
        None
    }
}

pub open spec fn hex4_ok(s: Seq<char>, i: int) -> bool {
    0 <= i && i + 4 <= s.len() && is_hex_digit(s[i]) && is_hex_digit(s[i + 1]) && is_hex_digit(
        s[i + 2],
    ) && is_hex_digit(s[i + 3])
}

pub open spec fn hex4_val(s: Seq<char>, i: int) -> nat {
    hex_val(s[i]) * 4096 + hex_val(s[i + 1]) * 256 + hex_val(s[i + 2]) * 16 + hex_val(s[i + 3])
}

/// The characters of a JSON string after its opening quote, up to and past
/// the closing quote.
pub open spec fn parse_string_body(s: Seq<char>, i: int) -> Option<(Seq<char>, int)>
    decreases s.len() - i,
{
    if !(0 <= i && i < s.len()) {
        None
    } else if s[i] == '"' {
        Some((Seq::empty(), i + 1))
    } else if s[i] == '\\' {
        if i + 1 < s.len() {
            let e = s[i + 1];
            if e == 'u' {
                if hex4_ok(s, i + 2) {
                    let code = hex4_val(s, i + 2);
                    if is_scalar(code as u32) {
                        match parse_string_body(s, i + 6) {
                            None => None,
                            Some((rest, j)) => Some((seq![(code as u32) as char] + rest, j)),
                        }
                    } else {
                        None
                    }
                } else {
                    None
                }
            } else {
                match unescape_simple(e) {
                    None => None,
                    Some(c) => match parse_string_body(s, i + 2) {
                        None => None,
                        Some((rest, j)) => Some((seq![c] + rest, j)),
                    },
                }
            }
        } else {
            None
        }
    } else if (s[i] as u32) < 0x20 {
        None
    } else {
        match parse_string_body(s, i + 1) {
            None => None,
            Some((rest, j)) => Some((seq![s[i]] + rest, j)),
        }
    }
}

/// A whole JSON string token at `i`.
pub open spec fn parse_json_string(s: Seq<char>, i: int) -> Option<(Seq<char>, int)> {
    if 0 <= i && i < s.len() && s[i] == '"' {
        parse_string_body(s, i + 1)
    } else {
        None
    }
}

/// End of the run of decimal digits starting at `i`.
pub open spec fn digits_end(s: Seq<char>, i: int) -> int
    decreases s.len() - i,
{
    if 0 <= i && i < s.len() && is_dec_digit(s[i]) {
        digits_end(s, i + 1)
    } else {
        i
    }
}

/// An unsigned JSON number at `i`: digits without a redundant leading zero,
/// fitting a `u64`.
pub open spec fn parse_u64_at(s: Seq<char>, i: int) -> Option<(u64, int)> {
    if 0 <= i && i < s.len() && is_dec_digit(s[i]) {
        let j = digits_end(s, i);
        let ds = s.subrange(i, j);
        if ds.len() > 1 && ds[0] == '0' {
            None
        } else if val_of_digits(ds) > u64::MAX {
            None
        } else {
            Some((val_of_digits(ds) as u64, j))
        }
    } else {
        None
    }
}

/// A single punctuation token, leading whitespace skipped.
pub open spec fn tok_char(s: Seq<char>, i: int, c: char) -> Option<int> {
    let j = skip_ws(s, i);
    if 0 <= j && j < s.len() && s[j] == c {
        Some(j + 1)
    } else {
        None
    }
}

pub open spec fn tok_string(s: Seq<char>, i: int) -> Option<(Seq<char>, int)> {
    parse_json_string(s, skip_ws(s, i))
}

pub open spec fn tok_u64(s: Seq<char>, i: int) -> Option<(u64, int)> {
    parse_u64_at(s, skip_ws(s, i))
}

/// The given member key followed by a colon.
pub open spec fn parse_key(s: Seq<char>, i: int, key: Seq<char>) -> Option<int> {
    match tok_string(s, i) {
        None => None,
        Some((k, j)) => if k == key {
            tok_char(s, j, ':')
        } else {
            None
        },
    }
}

pub open spec fn parse_str_member(s: Seq<char>, i: int, key: Seq<char>) -> Option<
    (Seq<char>, int),
> {
    match parse_key(s, i, key) {
        None => None,
        Some(j) => tok_string(s, j),
    }
}

pub open spec fn parse_u64_member(s: Seq<char>, i: int, key: Seq<char>) -> Option<(u64, int)> {
    match parse_key(s, i, key) {
        None => None,
        Some(j) => tok_u64(s, j),
    }
}

/// One replay object, members in the canonical order.
pub open spec fn parse_replay_obj(s: Seq<char>, i: int) -> Option<(TrackedReplayModel, int)> {
    match tok_char(s, i, '{') {
        None => None,
        Some(j0) => match parse_str_member(s, j0, "hash"@) {
            None => None,
            Some((hash, j1)) => match tok_char(s, j1, ',') {
                None => None,
                Some(j2) => match parse_str_member(s, j2, "filename"@) {
                    None => None,
                    Some((filename, j3)) => match tok_char(s, j3, ',') {
                        None => None,
                        Some(j4) => match parse_u64_member(s, j4, "filesize"@) {
                            None => None,
                            Some((filesize, j5)) => match tok_char(s, j5, ',') {
                                None => None,
                                Some(j6) => match parse_u64_member(s, j6, "uploaded_at"@) {
                                    None => None,
                                    Some((uploaded_at, j7)) => match tok_char(s, j7, ',') {
                                        None => None,
                                        Some(j8) => match parse_str_member(s, j8, "filepath"@) {
                                            None => None,
                                            Some((filepath, j9)) => match tok_char(s, j9, '}') {
                                                None => None,
                                                Some(j10) => Some(
                                                    (
                                                        TrackedReplayModel {
                                                            hash,
                                                            filename,
                                                            filesize,
                                                            uploaded_at,
                                                            filepath,
                                                        },
                                                        j10,
                                                    ),
                                                ),
                                            },
                                        },
                                    },
                                },
                            },
                        },
                    },
                },
            },
        },
    }
}

/// One member of the replays object; its key must repeat the replay's hash.
pub open spec fn parse_entry(s: Seq<char>, i: int) -> Option<(TrackedReplayModel, int)> {
    match tok_string(s, i) {
        None => None,
        Some((k, j)) => match tok_char(s, j, ':') {
            None => None,
            Some(j2) => match parse_replay_obj(s, j2) {
                None => None,
                Some((r, j3)) => if r.hash == k {
                    Some((r, j3))
                } else {
                    None
                },
            },
        },
    }
}

/// The members after the first: a comma and an entry each, until the closing
/// brace. The position guard makes termination manifest; parsed entries do
/// advance the position, as the round-trip lemmas show.
pub open spec fn parse_entries_rest(
    s: Seq<char>,
    i: int,
    acc: Seq<TrackedReplayModel>,
) -> Option<(Seq<TrackedReplayModel>, int)>
    decreases s.len() - i,
{
    match tok_char(s, i, '}') {
        Some(j) => Some((acc, j)),
        None => match tok_char(s, i, ',') {
            None => None,
            Some(j) => match parse_entry(s, j) {
                None => None,
                Some((r, j2)) => if i < j2 && j2 <= s.len() {
                    parse_entries_rest(s, j2, acc.push(r))
                } else {
                    None
                },
            },
        },
    }
}

/// The replays object: possibly empty, one member per tracked replay.
pub open spec fn parse_replays_obj(s: Seq<char>, i: int) -> Option<
    (Seq<TrackedReplayModel>, int),
> {
    match tok_char(s, i, '{') {
        None => None,
        Some(j) => match tok_char(s, j, '}') {
            Some(j2) => Some((Seq::empty(), j2)),
            None => match parse_entry(s, j) {
                None => None,
                Some((r, j2)) => if j < j2 && j2 <= s.len() {
                    parse_entries_rest(s, j2, seq![r])
                } else {
                    None
                },
            },
        },
    }
}

/// The manifest version member's value: a string stands for itself; a
/// historical integer, signed or not, normalises to the empty string.
pub open spec fn parse_version_value(s: Seq<char>, i: int) -> Option<(Seq<char>, int)> {
    let j = skip_ws(s, i);
    if 0 <= j && j < s.len() && s[j] == '"' {
        parse_json_string(s, j)
    } else if 0 <= j && j < s.len() && s[j] == '-' {
        match parse_u64_at(s, j + 1) {
            None => None,
            Some((n, j2)) => Some((Seq::empty(), j2)),
        }
    } else {
        match parse_u64_at(s, j) {
            None => None,
            Some((n, j2)) => Some((Seq::empty(), j2)),
        }
    }
}

/// The whole persisted document. The stored total must equal the number of
/// entries, the entry hashes must be distinct, and only whitespace may follow
/// the closing brace.
pub open spec fn parse_tracker_spec(s: Seq<char>) -> Option<TrackerModel> {
    match tok_char(s, 0, '{') {
        None => None,
        Some(j0) => match parse_key(s, j0, "replays"@) {
            None => None,
            Some(j1) => match parse_replays_obj(s, j1) {
                None => None,
                Some((entries, j2)) => match tok_char(s, j2, ',') {
                    None => None,
                    Some(j3) => match parse_u64_member(s, j3, "total_uploaded"@) {
                        None => None,
                        Some((total, j4)) => {
                            let after = match tok_char(s, j4, ',') {
                                Some(j5) => match parse_key(s, j5, "manifest_version"@) {
                                    None => None,
                                    Some(j6) => match parse_version_value(s, j6) {
                                        None => None,
                                        Some((v, j7)) => match tok_char(s, j7, '}') {
                                            None => None,
                                            Some(j8) => Some((v, j8)),
                                        },
                                    },
                                },
                                None => match tok_char(s, j4, '}') {
                                    None => None,
                                    Some(j5) => Some((Seq::<char>::empty(), j5)),
                                },
                            };
                            match after {
                                None => None,
                                Some((version, jend)) => if skip_ws(s, jend) == s.len() && total
                                    as nat == entries.len() && hashes_unique(entries) {
                                    Some(TrackerModel { entries, manifest_version: version })
                                } else {
                                    None
                                },
                            }
                        },
                    },
                },
            },
        },
    }
}

// ---------------------------------------------------------------------------
// Parsing: executable
// ---------------------------------------------------------------------------

/// Relies on `char::from_u32`: `Some` exactly on Unicode scalar values,
/// carrying the character with that value.
#[verifier::external_body]
fn char_from_u32(code: u32) -> (r: Option<char>)
    ensures
        match r {
            Some(c) => is_scalar(code) && c == code as char,
            None => !is_scalar(code),
        },
{
    char::from_u32(code)
}

/// Hex digit value of a character; sixteen marks a non-digit.
fn hex_val_exec(c: char) -> (r: u32)
    ensures
        r == hex_val(c),
{
    if '0' <= c && c <= '9' {
        (c as u32) - ('0' as u32)
    } else if 'a' <= c && c <= 'f' {
        (c as u32) - ('a' as u32) + 10
    } else if 'A' <= c && c <= 'F' {
        (c as u32) - ('A' as u32) + 10
    } else {
        16
    }
}

fn skip_ws_exec(s: &Vec<char>, i: usize) -> (r: usize)
    requires
        i <= s@.len(),
    ensures
        r as int == skip_ws(s@, i as int),
        i <= r <= s@.len(),
{
    let mut pos: usize = i;
    while pos < s.len() && (s[pos] == ' ' || s[pos] == '\n' || s[pos] == '\t' || s[pos] == '\r')
        invariant
            i <= pos <= s@.len(),
            skip_ws(s@, i as int) == skip_ws(s@, pos as int),
        decreases s@.len() - pos,
    {
        pos += 1;
    }
    pos
}

/// A JSON string token: `Some` exactly where the specification parser
/// accepts, with the same decoded characters and end position.
fn parse_string_exec(s: &Vec<char>, i: usize) -> (r: Option<(Vec<char>, usize)>)
    requires
        i <= s@.len(),
    ensures
        match r {
            Some(p) => parse_json_string(s@, i as int) == Some((p.0@, p.1 as int)) && i < p.1
                <= s@.len(),
            None => parse_json_string(s@, i as int) is None,
        },
{
    if !(i < s.len() && s[i] == '"') {
        return None;
    }
    let mut acc: Vec<char> = Vec::new();
    let mut pos: usize = i + 1;
    proof {
        assert(acc@ =~= Seq::<char>::empty());
    }
    loop
        invariant
            i + 1 <= pos <= s@.len(),
            i < s@.len() && s@[i as int] == '"',
            match parse_string_body(s@, pos as int) {
                Some(p) => parse_string_body(s@, i + 1) == Some((acc@ + p.0, p.1)),
                None => parse_string_body(s@, i + 1) is None,
            },
        decreases s@.len() - pos,
    {
        if pos >= s.len() {
            return None;
        }
        let c = s[pos];
        if c == '"' {
            proof {
                assert(acc@ + Seq::<char>::empty() =~= acc@);
            }
            return Some((acc, pos + 1));
        } else if c == '\\' {
            if pos + 1 == s.len() {
                return None;
            }
            let e = s[pos + 1];
            if e == 'u' {
                if s.len() - pos < 6 {
                    proof {
                        assert(!hex4_ok(s@, pos + 2));
                    }
                    return None;
                }
                let h0 = hex_val_exec(s[pos + 2]);
                let h1 = hex_val_exec(s[pos + 3]);
                let h2 = hex_val_exec(s[pos + 4]);
                let h3 = hex_val_exec(s[pos + 5]);
                if h0 == 16 || h1 == 16 || h2 == 16 || h3 == 16 {
                    proof {
                        assert(!hex4_ok(s@, pos + 2));
                    }
                    return None;
                }
                let code: u32 = h0 * 4096 + h1 * 256 + h2 * 16 + h3;
                proof {
                    assert(hex4_ok(s@, pos + 2));
                    assert(code as nat == hex4_val(s@, pos + 2));
                }
                match char_from_u32(code) {
                    None => {
                        return None;
                    },
                    Some(ch) => {
                        let ghost acc0 = acc@;
                        acc.push(ch);
                        proof {
                            if parse_string_body(s@, pos + 6) is Some {
                                let p = parse_string_body(s@, pos + 6)->Some_0;
                                assert(acc0 + (seq![ch] + p.0) =~= acc@ + p.0);
                            }
                        }
                        pos = pos + 6;
                    },
                }
            } else {
                let uc: Option<char> = if e == '"' {
                    Some('"')
                } else if e == '\\' {
                    Some('\\')
                } else if e == '/' {
                    Some('/')
                } else if e == 'b' {
                    Some('\u{8}')
                } else if e == 'f' {
                    Some('\u{c}')
                } else if e == 'n' {
                    Some('\n')
                } else if e == 'r' {
                    Some('\r')
                } else if e == 't' {
                    Some('\t')
                } else {
                    None
                };
                proof {
                    assert(uc == unescape_simple(e));
                }
                match uc {
                    None => {
                        return None;
                    },
                    Some(c2) => {
                        let ghost acc0 = acc@;
                        acc.push(c2);
                        proof {
                            if parse_string_body(s@, pos + 2) is Some {
                                let p = parse_string_body(s@, pos + 2)->Some_0;
                                assert(acc0 + (seq![c2] + p.0) =~= acc@ + p.0);
                            }
                        }
                        pos = pos + 2;
                    },
                }
            }
        } else if (c as u32) < 0x20 {
            return None;
        } else {
            let ghost acc0 = acc@;
            acc.push(c);
            proof {
                if parse_string_body(s@, pos + 1) is Some {
                    let p = parse_string_body(s@, pos + 1)->Some_0;
                    assert(acc0 + (seq![c] + p.0) =~= acc@ + p.0);
                }
            }
            pos = pos + 1;
        }
    }
}

/// Every character of a digit run is a digit.
proof fn lemma_digits_end_digits(s: Seq<char>, i: int)
    requires
        0 <= i <= s.len(),
    ensures
        i <= digits_end(s, i) <= s.len(),
        forall|k: int| i <= k < digits_end(s, i) ==> is_dec_digit(#[trigger] s[k]),
    decreases s.len() - i,
{
    if i < s.len() && is_dec_digit(s[i]) {
        lemma_digits_end_digits(s, i + 1);
    }
}

/// A digit prefix denotes at most what the whole digit run denotes.
proof fn lemma_val_subrange_le(s: Seq<char>, i: int, k: int, j: int)
    requires
        0 <= i <= k <= j <= s.len(),
    ensures
        val_of_digits(s.subrange(i, k)) <= val_of_digits(s.subrange(i, j)),
    decreases j - k,
{
    if k < j {
        let a = s.subrange(i, k);
        let b = s.subrange(i, k + 1);
        assert(b.drop_last() =~= a);
        assert(val_of_digits(b) == val_of_digits(a) * 10 + dec_val(s[k]));
        lemma_val_subrange_le(s, i, k + 1, j);
    }
}

/// An unsigned number token: `Some` exactly where the specification parser
/// accepts, with the same value and end position.
fn parse_u64_exec(s: &Vec<char>, i: usize) -> (r: Option<(u64, usize)>)
    requires
        i <= s@.len(),
    ensures
        match r {
            Some(p) => parse_u64_at(s@, i as int) == Some((p.0, p.1 as int)) && i < p.1 <= s@.len(),
            None => parse_u64_at(s@, i as int) is None,
        },
{
    if !(i < s.len() && '0' <= s[i] && s[i] <= '9') {
        return None;
    }
    // Find the end of the digit run.
    let mut j: usize = i;
    while j < s.len() && '0' <= s[j] && s[j] <= '9'
        invariant
            i <= j <= s@.len(),
            digits_end(s@, i as int) == digits_end(s@, j as int),
        decreases s@.len() - j,
    {
        j += 1;
    }
    proof {
        assert(digits_end(s@, i as int) == j);
    }
    let ghost ds = s@.subrange(i as int, j as int);
    if s[i] == '0' && j > i + 1 {
        proof {
            assert(ds[0] == '0' && ds.len() > 1);
        }
        return None;
    }
    // Accumulate the value, left to right.
    let mut acc: u64 = 0;
    let mut k: usize = i;
    proof {
        assert(s@.subrange(i as int, i as int) =~= Seq::<char>::empty());
    }
    while k < j
        invariant
            i <= k <= j <= s@.len(),
            digits_end(s@, i as int) == j,
            acc as nat == val_of_digits(s@.subrange(i as int, k as int)),
            i < s@.len() && is_dec_digit(s@[i as int]),
            !(s@.subrange(i as int, j as int).len() > 1 && s@.subrange(i as int, j as int)[0]
                == '0'),
        decreases j - k,
    {
        proof {
            lemma_digits_end_digits(s@, i as int);
            assert(is_dec_digit(s@[k as int]));
        }
        let d: u32 = (s[k] as u32) - ('0' as u32);
        proof {
            assert(d as nat == dec_val(s@[k as int]));
            assert(s@.subrange(i as int, k + 1).drop_last() =~= s@.subrange(i as int, k as int));
            assert(val_of_digits(s@.subrange(i as int, k + 1)) == val_of_digits(
                s@.subrange(i as int, k as int),
            ) * 10 + dec_val(s@[k as int]));
        }
        let step = match acc.checked_mul(10) {
            Some(m) => m.checked_add(d as u64),
            None => None,
        };
        match step {
            Some(v) => {
                acc = v;
            },
            None => {
                proof {
                    assert(val_of_digits(s@.subrange(i as int, k + 1)) > u64::MAX);
                    lemma_val_subrange_le(s@, i as int, k + 1, j as int);
                }
                return None;
            },
        }
        k += 1;
    }
    Some((acc, j))
}

/// A punctuation token after whitespace.
fn tok_char_exec(s: &Vec<char>, i: usize, c: char) -> (r: Option<usize>)
    requires
        i <= s@.len(),
    ensures
        match r {
            Some(j) => tok_char(s@, i as int, c) == Some(j as int) && i < j <= s@.len(),
            None => tok_char(s@, i as int, c) is None,
        },
{
    let j = skip_ws_exec(s, i);
    if j < s.len() && s[j] == c {
        Some(j + 1)
    } else {
        None
    }
}

/// The given member key and its colon.
fn parse_key_exec(s: &Vec<char>, i: usize, key: &str) -> (r: Option<usize>)
    requires
        i <= s@.len(),
    ensures
        match r {
            Some(j) => parse_key(s@, i as int, key@) == Some(j as int) && i < j <= s@.len(),
            None => parse_key(s@, i as int, key@) is None,
        },
{
    let j0 = skip_ws_exec(s, i);
    match parse_string_exec(s, j0) {
        None => None,
        Some((k, j)) => {
            if chars_eq_str(&k, key) {
                tok_char_exec(s, j, ':')
            } else {
                None
            }
        },
    }
}

/// A string-valued member with the given key.
fn parse_str_member_exec(s: &Vec<char>, i: usize, key: &str) -> (r: Option<(Vec<char>, usize)>)
    requires
        i <= s@.len(),
    ensures
        match r {
            Some(p) => parse_str_member(s@, i as int, key@) == Some((p.0@, p.1 as int)) && i < p.1
                <= s@.len(),
            None => parse_str_member(s@, i as int, key@) is None,
        },
{
    match parse_key_exec(s, i, key) {
        None => None,
        Some(j) => {
            let j2 = skip_ws_exec(s, j);
            parse_string_exec(s, j2)
        },
    }
}

/// A number-valued member with the given key.
fn parse_u64_member_exec(s: &Vec<char>, i: usize, key: &str) -> (r: Option<(u64, usize)>)
    requires
        i <= s@.len(),
    ensures
        match r {
            Some(p) => parse_u64_member(s@, i as int, key@) == Some((p.0, p.1 as int)) && i < p.1
                <= s@.len(),
            None => parse_u64_member(s@, i as int, key@) is None,
        },
{
    match parse_key_exec(s, i, key) {
        None => None,
        Some(j) => {
            let j2 = skip_ws_exec(s, j);
            parse_u64_exec(s, j2)
        },
    }
}

/// One replay object.
fn parse_replay_exec(s: &Vec<char>, i: usize) -> (r: Option<(TrackedReplay, usize)>)
    requires
        i <= s@.len(),
    ensures
        match r {
            Some(p) => parse_replay_obj(s@, i as int) == Some((p.0@, p.1 as int)) && i < p.1
                <= s@.len(),
            None => parse_replay_obj(s@, i as int) is None,
        },
{
    let j0 = match tok_char_exec(s, i, '{') {
        None => {
            return None;
        },
        Some(j) => j,
    };
    let (hash, j1) = match parse_str_member_exec(s, j0, "hash") {
        None => {
            return None;
        },
        Some(p) => p,
    };
    let j2 = match tok_char_exec(s, j1, ',') {
        None => {
            return None;
        },
        Some(j) => j,
    };
    let (filename, j3) = match parse_str_member_exec(s, j2, "filename") {
        None => {
            return None;
        },
        Some(p) => p,
    };
    let j4 = match tok_char_exec(s, j3, ',') {
        None => {
            return None;
        },
        Some(j) => j,
    };
    let (filesize, j5) = match parse_u64_member_exec(s, j4, "filesize") {
        None => {
            return None;
        },
        Some(p) => p,
    };
    let j6 = match tok_char_exec(s, j5, ',') {
        None => {
            return None;
        },
        Some(j) => j,
    };
    let (uploaded_at, j7) = match parse_u64_member_exec(s, j6, "uploaded_at") {
        None => {
            return None;
        },
        Some(p) => p,
    };
    let j8 = match tok_char_exec(s, j7, ',') {
        None => {
            return None;
        },
        Some(j) => j,
    };
    let (filepath, j9) = match parse_str_member_exec(s, j8, "filepath") {
        None => {
            return None;
        },
        Some(p) => p,
    };
    let j10 = match tok_char_exec(s, j9, '}') {
        None => {
            return None;
        },
        Some(j) => j,
    };
    let t = TrackedReplay {
        hash: string_from_chars(&hash),
        filename: string_from_chars(&filename),
        filesize,
        uploaded_at,
        filepath: string_from_chars(&filepath),
    };
    Some((t, j10))
}

/// One replays-object member, whose key must repeat the replay's hash.
fn parse_entry_exec(s: &Vec<char>, i: usize) -> (r: Option<(TrackedReplay, usize)>)
    requires
        i <= s@.len(),
    ensures
        match r {
            Some(p) => parse_entry(s@, i as int) == Some((p.0@, p.1 as int)) && i < p.1 <= s@.len(),
            None => parse_entry(s@, i as int) is None,
        },
{
    let j0 = skip_ws_exec(s, i);
    let (k, j) = match parse_string_exec(s, j0) {
        None => {
            return None;
        },
        Some(p) => p,
    };
    let j2 = match tok_char_exec(s, j, ':') {
        None => {
            return None;
        },
        Some(j2) => j2,
    };
    let (t, j3) = match parse_replay_exec(s, j2) {
        None => {
            return None;
        },
        Some(p) => p,
    };
    if chars_eq_str(&k, t.hash.as_str()) {
        Some((t, j3))
    } else {
        None
    }
}

/// The replays object.
fn parse_replays_exec(s: &Vec<char>, i: usize) -> (r: Option<(Vec<TrackedReplay>, usize)>)
    requires
        i <= s@.len(),
    ensures
        match r {
            Some(p) => parse_replays_obj(s@, i as int) == Some(
                (p.0@.map_values(|t: TrackedReplay| t@), p.1 as int),
            ) && i < p.1 <= s@.len(),
            None => parse_replays_obj(s@, i as int) is None,
        },
{
    let j = match tok_char_exec(s, i, '{') {
        None => {
            return None;
        },
        Some(j) => j,
    };
    match tok_char_exec(s, j, '}') {
        Some(j2) => {
            let es: Vec<TrackedReplay> = Vec::new();
            proof {
                assert(es@.map_values(|t: TrackedReplay| t@) =~= Seq::<
                    TrackedReplayModel,
                >::empty());
            }
            return Some((es, j2));
        },
        None => {},
    }
    let (first, j2) = match parse_entry_exec(s, j) {
        None => {
            return None;
        },
        Some(p) => p,
    };
    let mut es: Vec<TrackedReplay> = Vec::new();
    es.push(first);
    let mut pos: usize = j2;
    proof {
        assert(es@.map_values(|t: TrackedReplay| t@) =~= seq![first@]);
    }
    loop
        invariant
            i < pos <= s@.len(),
            parse_replays_obj(s@, i as int) == parse_entries_rest(
                s@,
                pos as int,
                es@.map_values(|t: TrackedReplay| t@),
            ),
        decreases s@.len() - pos,
    {
        match tok_char_exec(s, pos, '}') {
            Some(j3) => {
                return Some((es, j3));
            },
            None => {},
        }
        let j3 = match tok_char_exec(s, pos, ',') {
            None => {
                return None;
            },
            Some(j3) => j3,
        };
        let (t, j4) = match parse_entry_exec(s, j3) {
            None => {
                return None;
            },
            Some(p) => p,
        };
        let ghost before = es@.map_values(|t: TrackedReplay| t@);
        es.push(t);
        proof {
            assert(es@.map_values(|t: TrackedReplay| t@) =~= before.push(t@));
        }
        pos = j4;
    }
}

/// The manifest version member's value.
fn parse_version_exec(s: &Vec<char>, i: usize) -> (r: Option<(Vec<char>, usize)>)
    requires
        i <= s@.len(),
    ensures
        match r {
            Some(p) => parse_version_value(s@, i as int) == Some((p.0@, p.1 as int)) && i < p.1
                <= s@.len(),
            None => parse_version_value(s@, i as int) is None,
        },
{
    let j = skip_ws_exec(s, i);
    if j < s.len() && s[j] == '"' {
        parse_string_exec(s, j)
    } else if j < s.len() && s[j] == '-' {
        match parse_u64_exec(s, j + 1) {
            None => None,
            Some((_n, j2)) => {
                let empty: Vec<char> = Vec::new();
                proof {
                    assert(empty@ =~= Seq::<char>::empty());
                }
                Some((empty, j2))
            },
        }
    } else {
        match parse_u64_exec(s, j) {
            None => None,
            Some((_n, j2)) => {
                let empty: Vec<char> = Vec::new();
                proof {
                    assert(empty@ =~= Seq::<char>::empty());
                }
                Some((empty, j2))
            },
        }
    }
}

/// Whether the parsed entries carry pairwise distinct hashes.
fn check_hashes_unique(es: &Vec<TrackedReplay>) -> (r: bool)
    ensures
        r == hashes_unique(es@.map_values(|t: TrackedReplay| t@)),
{
    let ghost m = es@.map_values(|t: TrackedReplay| t@);
    let mut k: usize = 0;
    while k < es.len()
        invariant
            m == es@.map_values(|t: TrackedReplay| t@),
            k <= es@.len(),
            forall|a: int, b: int| 0 <= a < b < k ==> #[trigger] m[a].hash != #[trigger] m[b].hash,
        decreases es@.len() - k,
    {
        let mut l: usize = 0;
        while l < k
            invariant
                m == es@.map_values(|t: TrackedReplay| t@),
                l <= k < es@.len(),
                forall|a: int| 0 <= a < l ==> #[trigger] m[a].hash != m[k as int].hash,
            decreases k - l,
        {
            if str_eq(es[l].hash.as_str(), es[k].hash.as_str()) {
                proof {
                    assert(m[l as int].hash == m[k as int].hash);
                    assert(!hashes_unique(m));
                }
                return false;
            }
            l += 1;
        }
        k += 1;
    }
    proof {
        assert(hashes_unique(m));
    }
    true
}

/// Parse a persisted tracker document. `Some` exactly where the
/// specification parser accepts, with the same model; the result is then
/// well-formed.
pub fn parse_tracker_chars(s: &Vec<char>) -> (r: Option<ReplayTracker>)
    ensures
        match r {
            Some(t) => parse_tracker_spec(s@) == Some(t@) && t.wf(),
            None => parse_tracker_spec(s@) is None,
        },
{
    let j0 = match tok_char_exec(s, 0, '{') {
        None => {
            return None;
        },
        Some(j) => j,
    };
    let j1 = match parse_key_exec(s, j0, "replays") {
        None => {
            return None;
        },
        Some(j) => j,
    };
    let (es, j2) = match parse_replays_exec(s, j1) {
        None => {
            return None;
        },
        Some(p) => p,
    };
    let j3 = match tok_char_exec(s, j2, ',') {
        None => {
            return None;
        },
        Some(j) => j,
    };
    let (total, j4) = match parse_u64_member_exec(s, j3, "total_uploaded") {
        None => {
            return None;
        },
        Some(p) => p,
    };
    let (version, jend) = match tok_char_exec(s, j4, ',') {
        Some(j5) => {
            let j6 = match parse_key_exec(s, j5, "manifest_version") {
                None => {
                    return None;
                },
                Some(j) => j,
            };
            let (v, j7) = match parse_version_exec(s, j6) {
                None => {
                    return None;
                },
                Some(p) => p,
            };
            let j8 = match tok_char_exec(s, j7, '}') {
                None => {
                    return None;
                },
                Some(j) => j,
            };
            (v, j8)
        },
        None => {
            let j5 = match tok_char_exec(s, j4, '}') {
                None => {
                    return None;
                },
                Some(j) => j,
            };
            let empty: Vec<char> = Vec::new();
            proof {
                assert(empty@ =~= Seq::<char>::empty());
            }
            (empty, j5)
        },
    };
    let tail = skip_ws_exec(s, jend);
    if tail != s.len() {
        return None;
    }
    if total != es.len() as u64 {
        return None;
    }
    if !check_hashes_unique(&es) {
        return None;
    }
    let total_entries = es.len();
    let t = ReplayTracker {
        replays: es,
        total_uploaded: total_entries,
        manifest_version: string_from_chars(&version),
    };
    Some(t)
}

/// Parse a persisted tracker document from its text.
pub fn parse_tracker_str(s: &str) -> (r: Option<ReplayTracker>)
    ensures
        match r {
            Some(t) => parse_tracker_spec(s@) == Some(t@) && t.wf(),
            None => parse_tracker_spec(s@) is None,
        },
{
    let cs = chars_vec(s);
    parse_tracker_chars(&cs)
}

/// Build the in-memory tracker from what was read from disk: an absent file
/// and an unparseable document both fall back to the empty tracker, never an
/// error.
pub fn load_tracker_from_contents(contents: Option<&str>) -> (r: ReplayTracker)
    ensures
        r.wf(),
        match contents {
            None => r@.entries.len() == 0 && r@.manifest_version.len() == 0,
            Some(s) => match parse_tracker_spec(s@) {
                Some(m) => r@ == m,
                None => r@.entries.len() == 0 && r@.manifest_version.len() == 0,
            },
        },
{
    match contents {
        None => ReplayTracker::new(),
        Some(s) => match parse_tracker_str(s) {
            Some(t) => t,
            None => ReplayTracker::new(),
        },
    }
}

// ---------------------------------------------------------------------------
// Round trip: what the writer emits, the reader accepts unchanged
// ---------------------------------------------------------------------------

/// The text `w` stands in `s` at position `i`.
pub open spec fn matches_at(s: Seq<char>, i: int, w: Seq<char>) -> bool {
    0 <= i && i + w.len() <= s.len() && s.subrange(i, i + w.len() as int) == w
}

proof fn lemma_matches_split(s: Seq<char>, i: int, a: Seq<char>, b: Seq<char>)
    requires
        matches_at(s, i, a + b),
    ensures
        matches_at(s, i, a),
        matches_at(s, i + a.len(), b),
{
    let w = a + b;
    assert forall|k: int| 0 <= k < a.len() implies s.subrange(i, i + a.len() as int)[k] == a[k] by {
        assert(s.subrange(i, i + w.len() as int)[k] == w[k]);
    }
    assert(s.subrange(i, i + a.len() as int) =~= a);
    assert forall|k: int|
        0 <= k < b.len() implies s.subrange(i + a.len(), i + a.len() + b.len() as int)[k]
        == b[k] by {
        assert(s.subrange(i, i + w.len() as int)[a.len() + k] == w[a.len() + k]);
    }
    assert(s.subrange(i + a.len(), i + a.len() + b.len() as int) =~= b);
}

proof fn lemma_matches_index(s: Seq<char>, i: int, w: Seq<char>, k: int)
    requires
        matches_at(s, i, w),
        0 <= k < w.len(),
    ensures
        s[i + k] == w[k],
{
    assert(s.subrange(i, i + w.len() as int)[k] == w[k]);
}

proof fn lemma_matches_first(s: Seq<char>, i: int, w: Seq<char>)
    requires
        matches_at(s, i, w),
        w.len() > 0,
    ensures
        s[i] == w[0],
        i < s.len(),
{
    assert(s.subrange(i, i + w.len() as int)[0] == w[0]);
}

/// Whitespace skipping stops at once on a non-whitespace character.
proof fn lemma_skip_ws_none(s: Seq<char>, i: int)
    requires
        0 <= i,
        i == s.len() || !is_ws_char(s[i]),
    ensures
        skip_ws(s, i) == i,
{
}

/// A punctuation token parses where its character stands.
proof fn lemma_tok_char_round(s: Seq<char>, i: int, c: char)
    requires
        matches_at(s, i, seq![c]),
        !is_ws_char(c),
    ensures
        tok_char(s, i, c) == Some(i + 1),
{
    lemma_matches_first(s, i, seq![c]);
    lemma_skip_ws_none(s, i);
}

/// A punctuation token does not parse where a different, non-whitespace
/// character stands.
proof fn lemma_tok_char_mismatch(s: Seq<char>, i: int, c: char, d: char)
    requires
        0 <= i < s.len(),
        s[i] == d,
        !is_ws_char(d),
        d != c,
    ensures
        tok_char(s, i, c) is None,
{
    lemma_skip_ws_none(s, i);
}

/// A hex digit character denotes its value.
proof fn lemma_hex_digit_char_val(n: nat)
    requires
        n < 16,
    ensures
        hex_val(hex_digit_char(n)) == n,
        is_hex_digit(hex_digit_char(n)),
{
}

/// An encoded JSON string parses back to exactly the string it encodes.
proof fn lemma_parse_string_body_round(s: Seq<char>, i: int, v: Seq<char>)
    requires
        matches_at(s, i, escape_string(v) + seq!['"']),
    ensures
        parse_string_body(s, i) == Some((v, i + escape_string(v).len() + 1)),
    decreases v.len(),
{
    if v.len() == 0 {
        assert(escape_string(v) + seq!['"'] =~= seq!['"']);
        lemma_matches_first(s, i, seq!['"']);
    } else {
        let c = v[0];
        let v2 = v.drop_first();
        let ec = escape_char(c);
        assert(escape_string(v) == ec + escape_string(v2));
        assert(escape_string(v) + seq!['"'] =~= ec + (escape_string(v2) + seq!['"']));
        lemma_matches_split(s, i, ec, escape_string(v2) + seq!['"']);
        let i2 = i + ec.len();
        lemma_parse_string_body_round(s, i2, v2);
        assert forall|k: int| 0 <= k < ec.len() implies s[i + k] == ec[k] by {
            lemma_matches_index(s, i, ec, k);
        }
        assert(s[i] == ec[0]) by {
            lemma_matches_index(s, i, ec, 0);
        }
        if ec.len() >= 2 {
            assert(s[i + 1] == ec[1]) by {
                lemma_matches_index(s, i, ec, 1);
            }
        }
        if ec.len() >= 6 {
            assert(s[i + 2] == ec[2] && s[i + 3] == ec[3] && s[i + 4] == ec[4] && s[i + 5]
                == ec[5]) by {
                lemma_matches_index(s, i, ec, 2);
                lemma_matches_index(s, i, ec, 3);
                lemma_matches_index(s, i, ec, 4);
                lemma_matches_index(s, i, ec, 5);
            }
        }
        if c == '"' {
            assert(s[i] == '\\' && s[i + 1] == '"');
            assert(parse_string_body(s, i) == Some((seq![c] + v2, i2 + escape_string(v2).len()
                + 1)));
            assert(seq![c] + v2 =~= v);
        } else if c == '\\' {
            assert(s[i] == '\\' && s[i + 1] == '\\');
            assert(seq![c] + v2 =~= v);
        } else if (c as u32) < 0x20 {
            assert(s[i] == '\\' && s[i + 1] == 'u' && s[i + 2] == '0' && s[i + 3] == '0');
            let hi = (c as u32 / 16) as nat;
            let lo = (c as u32 % 16) as nat;
            assert(s[i + 4] == hex_digit_char(hi));
            assert(s[i + 5] == hex_digit_char(lo));
            lemma_hex_digit_char_val(hi);
            lemma_hex_digit_char_val(lo);
            assert(hex4_ok(s, i + 2));
            assert(hex_val('0') == 0);
            let code = hex4_val(s, i + 2);
            assert(code == hi * 16 + lo);
            vstd::arithmetic::div_mod::lemma_fundamental_div_mod(c as u32 as int, 16);
            assert(code == c as u32);
            assert(is_scalar(code as u32));
            vstd::utf8::char_u32_cast(c, c as u32);
            assert((code as u32) as char == c);
            assert(seq![c] + v2 =~= v);
        } else {
            assert(s[i] == c);
            assert(seq![c] + v2 =~= v);
        }
    }
}

/// A JSON string token round-trips through encoding.
proof fn lemma_parse_string_round(s: Seq<char>, i: int, v: Seq<char>)
    requires
        matches_at(s, i, encode_json_string(v)),
    ensures
        parse_json_string(s, i) == Some((v, i + encode_json_string(v).len())),
        tok_string(s, i) == Some((v, i + encode_json_string(v).len())),
{
    assert(encode_json_string(v) =~= seq!['"'] + (escape_string(v) + seq!['"']));
    lemma_matches_split(s, i, seq!['"'], escape_string(v) + seq!['"']);
    lemma_matches_first(s, i, seq!['"']);
    lemma_parse_string_body_round(s, i + 1, v);
    lemma_skip_ws_none(s, i);
}

/// The decimal digits of a number denote it, start with a non-zero digit
/// unless the number is zero, and are digits throughout.
proof fn lemma_dec_digits_facts(n: nat)
    ensures
        dec_digits(n).len() >= 1,
        forall|k: int| 0 <= k < dec_digits(n).len() ==> is_dec_digit(#[trigger] dec_digits(n)[k]),
        val_of_digits(dec_digits(n)) == n,
        dec_digits(n)[0] == '0' ==> n == 0 && dec_digits(n).len() == 1,
    decreases n,
{
    if n < 10 {
        let ds = dec_digits(n);
        assert(ds =~= seq![dec_digit_char(n)]);
        assert(ds.drop_last() =~= Seq::<char>::empty());
        assert(val_of_digits(ds) == val_of_digits(ds.drop_last()) * 10 + dec_val(ds.last()));
        assert(dec_val(dec_digit_char(n)) == n);
    } else {
        lemma_dec_digits_facts(n / 10);
        let prev = dec_digits(n / 10);
        let ds = dec_digits(n);
        assert(ds == prev.push(dec_digit_char(n % 10)));
        assert(ds.drop_last() =~= prev);
        assert(val_of_digits(ds) == val_of_digits(prev) * 10 + dec_val(ds.last()));
        assert(dec_val(dec_digit_char(n % 10)) == n % 10);
        vstd::arithmetic::div_mod::lemma_fundamental_div_mod(n as int, 10);
        assert(n / 10 >= 1) by (nonlinear_arith)
            requires
                n >= 10,
        ;
        assert(ds[0] == prev[0]);
    }
}

/// A digit run bounded on the right by a non-digit ends exactly there.
proof fn lemma_digits_end_run(s: Seq<char>, i: int, e: int)
    requires
        0 <= i <= e <= s.len(),
        forall|k: int| i <= k < e ==> is_dec_digit(#[trigger] s[k]),
        e == s.len() || !is_dec_digit(s[e]),
    ensures
        digits_end(s, i) == e,
    decreases e - i,
{
    if i < e {
        lemma_digits_end_run(s, i + 1, e);
    }
}

/// An encoded number parses back to exactly the number it encodes, provided
/// no digit follows it.
proof fn lemma_parse_u64_round(s: Seq<char>, i: int, n: u64)
    requires
        matches_at(s, i, dec_digits(n as nat)),
        i + dec_digits(n as nat).len() == s.len() || !is_dec_digit(
            s[i + dec_digits(n as nat).len()],
        ),
    ensures
        parse_u64_at(s, i) == Some((n, i + dec_digits(n as nat).len())),
        tok_u64(s, i) == Some((n, i + dec_digits(n as nat).len())),
    decreases n,
{
    let ds = dec_digits(n as nat);
    lemma_dec_digits_facts(n as nat);
    assert forall|k: int| 0 <= k < ds.len() implies s[i + k] == ds[k] by {
        assert(s.subrange(i, i + ds.len() as int)[k] == ds[k]);
    }
    assert forall|k: int| i <= k < i + ds.len() implies is_dec_digit(#[trigger] s[k]) by {
        assert(s[k] == ds[k - i]);
    }
    lemma_digits_end_run(s, i, i + ds.len());
    assert(s[i] == ds[0]);
    assert(is_dec_digit(s[i]));
    assert(s.subrange(i, i + ds.len() as int) == ds);
    assert(!(ds.len() > 1 && ds[0] == '0'));
    assert(val_of_digits(ds) == n as nat);
    lemma_skip_ws_none(s, i);
}

/// A key and its colon round-trip.
proof fn lemma_parse_key_round(s: Seq<char>, i: int, key: Seq<char>)
    requires
        matches_at(s, i, encode_json_string(key) + seq![':']),
    ensures
        parse_key(s, i, key) == Some(i + encode_json_string(key).len() + 1),
{
    lemma_matches_split(s, i, encode_json_string(key), seq![':']);
    lemma_parse_string_round(s, i, key);
    lemma_tok_char_round(s, i + encode_json_string(key).len(), ':');
}

/// A string member round-trips.
proof fn lemma_parse_str_member_round(s: Seq<char>, i: int, key: Seq<char>, v: Seq<char>)
    requires
        matches_at(
            s,
            i,
            encode_json_string(key) + seq![':'] + encode_json_string(v),
        ),
    ensures
        parse_str_member(s, i, key) == Some(
            (
                v,
                i + encode_json_string(key).len() + 1 + encode_json_string(v).len(),
            ),
        ),
{
    let a = encode_json_string(key) + seq![':'];
    let b = encode_json_string(v);
    assert(encode_json_string(key) + seq![':'] + encode_json_string(v) =~= a + b);
    lemma_matches_split(s, i, a, b);
    lemma_parse_key_round(s, i, key);
    lemma_parse_string_round(s, i + a.len(), v);
}

/// A number member round-trips, provided no digit follows it.
proof fn lemma_parse_u64_member_round(s: Seq<char>, i: int, key: Seq<char>, n: u64)
    requires
        matches_at(s, i, encode_json_string(key) + seq![':'] + dec_digits(n as nat)),
        i + (encode_json_string(key) + seq![':'] + dec_digits(n as nat)).len() == s.len()
            || !is_dec_digit(
            s[i + (encode_json_string(key) + seq![':'] + dec_digits(n as nat)).len()],
        ),
    ensures
        parse_u64_member(s, i, key) == Some(
            (n, i + encode_json_string(key).len() + 1 + dec_digits(n as nat).len()),
        ),
{
    let a = encode_json_string(key) + seq![':'];
    let b = dec_digits(n as nat);
    assert(encode_json_string(key) + seq![':'] + dec_digits(n as nat) =~= a + b);
    lemma_matches_split(s, i, a, b);
    lemma_parse_key_round(s, i, key);
    lemma_parse_u64_round(s, i + a.len(), n);
}

/// An encoded replay object round-trips.
#[verifier::rlimit(100)]
proof fn lemma_parse_replay_round(s: Seq<char>, i: int, r: TrackedReplayModel)
    requires
        matches_at(s, i, encode_replay(r)),
    ensures
        parse_replay_obj(s, i) == Some((r, i + encode_replay(r).len())),
{
    let m_hash = encode_json_string("hash"@) + seq![':'] + encode_json_string(r.hash);
    let m_fname = encode_json_string("filename"@) + seq![':'] + encode_json_string(r.filename);
    let m_fsize = encode_json_string("filesize"@) + seq![':'] + dec_digits(r.filesize as nat);
    let m_upat = encode_json_string("uploaded_at"@) + seq![':'] + dec_digits(r.uploaded_at as nat);
    let m_fpath = encode_json_string("filepath"@) + seq![':'] + encode_json_string(r.filepath);
    let w = encode_replay(r);
    let rest1 = m_hash + (seq![','] + (m_fname + (seq![','] + (m_fsize + (seq![','] + (m_upat + (
    seq![','] + (m_fpath + seq!['}']))))))));
    assert(w =~= seq!['{'] + rest1);
    lemma_matches_split(s, i, seq!['{'], rest1);
    lemma_tok_char_round(s, i, '{');
    let i1 = i + 1;
    lemma_matches_split(s, i1, m_hash, seq![','] + (m_fname + (seq![','] + (m_fsize + (seq![','] + (
    m_upat + (seq![','] + (m_fpath + seq!['}']))))))));
    lemma_parse_str_member_round(s, i1, "hash"@, r.hash);
    let i2 = i1 + m_hash.len();
    lemma_matches_split(s, i2, seq![','], m_fname + (seq![','] + (m_fsize + (seq![','] + (m_upat + (
    seq![','] + (m_fpath + seq!['}'])))))));
    lemma_tok_char_round(s, i2, ',');
    let i3 = i2 + 1;
    lemma_matches_split(s, i3, m_fname, seq![','] + (m_fsize + (seq![','] + (m_upat + (seq![','] + (
    m_fpath + seq!['}']))))));
    lemma_parse_str_member_round(s, i3, "filename"@, r.filename);
    let i4 = i3 + m_fname.len();
    lemma_matches_split(s, i4, seq![','], m_fsize + (seq![','] + (m_upat + (seq![','] + (m_fpath
        + seq!['}'])))));
    lemma_tok_char_round(s, i4, ',');
    let i5 = i4 + 1;
    lemma_matches_split(s, i5, m_fsize, seq![','] + (m_upat + (seq![','] + (m_fpath + seq!['}']))));
    let i6 = i5 + m_fsize.len();
    lemma_matches_split(s, i6, seq![','], m_upat + (seq![','] + (m_fpath + seq!['}'])));
    lemma_matches_first(s, i6, seq![',']);
    assert(matches_at(s, i5, m_fsize) && s[i5 + m_fsize.len()] == ',');
    lemma_parse_u64_member_round(s, i5, "filesize"@, r.filesize);
    lemma_tok_char_round(s, i6, ',');
    let i7 = i6 + 1;
    lemma_matches_split(s, i7, m_upat, seq![','] + (m_fpath + seq!['}']));
    let i8 = i7 + m_upat.len();
    lemma_matches_split(s, i8, seq![','], m_fpath + seq!['}']);
    lemma_matches_first(s, i8, seq![',']);
    lemma_parse_u64_member_round(s, i7, "uploaded_at"@, r.uploaded_at);
    lemma_tok_char_round(s, i8, ',');
    let i9 = i8 + 1;
    lemma_matches_split(s, i9, m_fpath, seq!['}']);
    lemma_parse_str_member_round(s, i9, "filepath"@, r.filepath);
    let i10 = i9 + m_fpath.len();
    lemma_tok_char_round(s, i10, '}');
    assert(parse_replay_obj(s, i) == Some(
        (
            TrackedReplayModel {
                hash: r.hash,
                filename: r.filename,
                filesize: r.filesize,
                uploaded_at: r.uploaded_at,
                filepath: r.filepath,
            },
            i10 + 1,
        ),
    ));
    assert(i10 + 1 == i + w.len());
}

/// An encoded replays-object member round-trips.
#[verifier::rlimit(100)]
proof fn lemma_parse_entry_round(s: Seq<char>, i: int, r: TrackedReplayModel)
    requires
        matches_at(s, i, encode_entry(r)),
    ensures
        parse_entry(s, i) == Some((r, i + encode_entry(r).len())),
{
    let a = encode_json_string(r.hash);
    let w = encode_entry(r);
    assert(w =~= a + (seq![':'] + encode_replay(r)));
    lemma_matches_split(s, i, a, seq![':'] + encode_replay(r));
    lemma_parse_string_round(s, i, r.hash);
    let i1 = i + a.len();
    lemma_matches_split(s, i1, seq![':'], encode_replay(r));
    lemma_tok_char_round(s, i1, ':');
    lemma_parse_replay_round(s, i1 + 1, r);
}

/// The remaining members of the replays object round-trip, appending to what
/// was already parsed.
#[verifier::rlimit(100)]
proof fn lemma_parse_entries_rest_round(
    s: Seq<char>,
    i: int,
    acc: Seq<TrackedReplayModel>,
    rest: Seq<TrackedReplayModel>,
)
    requires
        matches_at(s, i, encode_entries_tail(rest) + seq!['}']),
    ensures
        parse_entries_rest(s, i, acc) == Some(
            (acc + rest, i + encode_entries_tail(rest).len() + 1),
        ),
    decreases rest.len(),
{
    if rest.len() == 0 {
        assert(encode_entries_tail(rest) + seq!['}'] =~= seq!['}']);
        lemma_tok_char_round(s, i, '}');
        assert(acc + rest =~= acc);
    } else {
        let r = rest[0];
        let rest2 = rest.drop_first();
        let e = encode_entry(r);
        assert(encode_entries_tail(rest) == seq![','] + e + encode_entries_tail(rest2));
        assert(encode_entries_tail(rest) + seq!['}'] =~= seq![','] + (e + (encode_entries_tail(
            rest2,
        ) + seq!['}'])));
        lemma_matches_split(s, i, seq![','], e + (encode_entries_tail(rest2) + seq!['}']));
        lemma_matches_first(s, i, seq![',']);
        lemma_tok_char_mismatch(s, i, '}', ',');
        lemma_tok_char_round(s, i, ',');
        let i1 = i + 1;
        lemma_matches_split(s, i1, e, encode_entries_tail(rest2) + seq!['}']);
        lemma_parse_entry_round(s, i1, r);
        let i2 = i1 + e.len();
        lemma_parse_entries_rest_round(s, i2, acc.push(r), rest2);
        assert(acc.push(r) + rest2 =~= acc + rest);
    }
}

/// An encoded replays object round-trips.
#[verifier::rlimit(100)]
proof fn lemma_parse_replays_round(s: Seq<char>, i: int, entries: Seq<TrackedReplayModel>)
    requires
        matches_at(s, i, seq!['{'] + encode_entries(entries) + seq!['}']),
    ensures
        parse_replays_obj(s, i) == Some(
            (entries, i + encode_entries(entries).len() + 2),
        ),
{
    let w = seq!['{'] + encode_entries(entries) + seq!['}'];
    assert(w =~= seq!['{'] + (encode_entries(entries) + seq!['}']));
    lemma_matches_split(s, i, seq!['{'], encode_entries(entries) + seq!['}']);
    lemma_tok_char_round(s, i, '{');
    let i1 = i + 1;
    if entries.len() == 0 {
        assert(encode_entries(entries) + seq!['}'] =~= seq!['}']);
        lemma_tok_char_round(s, i1, '}');
        assert(parse_replays_obj(s, i) == Some((Seq::<TrackedReplayModel>::empty(), i1 + 1)));
        assert(entries =~= Seq::<TrackedReplayModel>::empty());
    } else {
        let r = entries[0];
        let rest = entries.drop_first();
        let e = encode_entry(r);
        assert(encode_entries(entries) == e + encode_entries_tail(rest));
        assert(encode_entries(entries) + seq!['}'] =~= e + (encode_entries_tail(rest)
            + seq!['}']));
        lemma_matches_split(s, i1, e, encode_entries_tail(rest) + seq!['}']);
        assert(e =~= encode_json_string(r.hash) + (seq![':'] + encode_replay(r)));
        lemma_matches_split(s, i1, encode_json_string(r.hash), seq![':'] + encode_replay(r));
        assert(encode_json_string(r.hash) =~= seq!['"'] + (escape_string(r.hash) + seq!['"']));
        lemma_matches_split(s, i1, seq!['"'], escape_string(r.hash) + seq!['"']);
        lemma_matches_first(s, i1, seq!['"']);
        lemma_tok_char_mismatch(s, i1, '}', '"');
        lemma_parse_entry_round(s, i1, r);
        let i2 = i1 + e.len();
        lemma_parse_entries_rest_round(s, i2, seq![r], rest);
        assert(seq![r] + rest =~= entries);
    }
}

/// The pieces of a persisted document, named.
spec fn key_replays() -> Seq<char> {
    encode_json_string("replays"@) + seq![':']
}

spec fn robj_of(entries: Seq<TrackedReplayModel>) -> Seq<char> {
    seq!['{'] + encode_entries(entries) + seq!['}']
}

spec fn member_total_of(entries: Seq<TrackedReplayModel>) -> Seq<char> {
    encode_json_string("total_uploaded"@) + seq![':'] + dec_digits(entries.len())
}

spec fn key_version() -> Seq<char> {
    encode_json_string("manifest_version"@) + seq![':']
}

/// A full document with an abstract version member text.
spec fn doc_of(entries: Seq<TrackedReplayModel>, vtext: Seq<char>) -> Seq<char> {
    seq!['{'] + key_replays() + robj_of(entries) + seq![','] + member_total_of(entries)
        + seq![','] + key_version() + vtext + seq!['}']
}

/// Where each piece of the document stands.
#[verifier::rlimit(100)]
proof fn lemma_doc_pieces(s: Seq<char>, entries: Seq<TrackedReplayModel>, vtext: Seq<char>)
    requires
        s == doc_of(entries, vtext),
    ensures
        matches_at(s, 0, seq!['{']),
        matches_at(s, 1, key_replays()),
        matches_at(s, 1int + key_replays().len(), robj_of(entries)),
        matches_at(s, 1int + key_replays().len() + robj_of(entries).len(), seq![',']),
        matches_at(
            s,
            2int + key_replays().len() + robj_of(entries).len(),
            member_total_of(entries),
        ),
        matches_at(
            s,
            2int + key_replays().len() + robj_of(entries).len() + member_total_of(entries).len(),
            seq![','],
        ),
        matches_at(
            s,
            3int + key_replays().len() + robj_of(entries).len() + member_total_of(entries).len(),
            key_version(),
        ),
        matches_at(
            s,
            3int + key_replays().len() + robj_of(entries).len() + member_total_of(entries).len()
                + key_version().len(),
            vtext,
        ),
        matches_at(
            s,
            3int + key_replays().len() + robj_of(entries).len() + member_total_of(entries).len()
                + key_version().len() + vtext.len(),
            seq!['}'],
        ),
        s.len() == 4int + key_replays().len() + robj_of(entries).len() + member_total_of(
            entries,
        ).len() + key_version().len() + vtext.len(),
{
    let rest7 = vtext + seq!['}'];
    let rest6 = key_version() + rest7;
    let rest5 = seq![','] + rest6;
    let rest4 = member_total_of(entries) + rest5;
    let rest3 = seq![','] + rest4;
    let rest2 = robj_of(entries) + rest3;
    let rest1 = key_replays() + rest2;
    assert(s =~= seq!['{'] + rest1);
    assert(matches_at(s, 0, s)) by {
        assert(s.subrange(0, s.len() as int) =~= s);
    }
    lemma_matches_split(s, 0, seq!['{'], rest1);
    lemma_matches_split(s, 1, key_replays(), rest2);
    lemma_matches_split(s, 1int + key_replays().len(), robj_of(entries), rest3);
    lemma_matches_split(s, 1int + key_replays().len() + robj_of(entries).len(), seq![','], rest4);
    lemma_matches_split(
        s,
        2int + key_replays().len() + robj_of(entries).len(),
        member_total_of(entries),
        rest5,
    );
    lemma_matches_split(
        s,
        2int + key_replays().len() + robj_of(entries).len() + member_total_of(entries).len(),
        seq![','],
        rest6,
    );
    lemma_matches_split(
        s,
        3int + key_replays().len() + robj_of(entries).len() + member_total_of(entries).len(),
        key_version(),
        rest7,
    );
    lemma_matches_split(
        s,
        3int + key_replays().len() + robj_of(entries).len() + member_total_of(entries).len()
            + key_version().len(),
        vtext,
        seq!['}'],
    );
}

/// One parsed document, with the version member abstracted: the version text
/// is either a JSON string (standing for itself) or a bare integer
/// (normalising to the empty version). The document parses to its entries and
/// that version exactly when the entry hashes are distinct.
#[verifier::rlimit(100)]
proof fn lemma_parse_tracker_doc(
    s: Seq<char>,
    entries: Seq<TrackedReplayModel>,
    vtext: Seq<char>,
    vres: Seq<char>,
    vnum: u64,
    vstring: bool,
)
    requires
        entries.len() <= u64::MAX,
        s == doc_of(entries, vtext),
        vstring ==> vtext == encode_json_string(vres),
        !vstring ==> vtext == dec_digits(vnum as nat) && vres == Seq::<char>::empty(),
    ensures
        parse_tracker_spec(s) == if hashes_unique(entries) {
            Some(TrackerModel { entries, manifest_version: vres })
        } else {
            None::<TrackerModel>
        },
{
    lemma_doc_pieces(s, entries, vtext);
    lemma_tok_char_round(s, 0, '{');
    let i1 = 1int;
    lemma_parse_key_round(s, i1, "replays"@);
    let i2 = i1 + key_replays().len();
    lemma_parse_replays_round(s, i2, entries);
    let i3 = i2 + robj_of(entries).len();
    lemma_tok_char_round(s, i3, ',');
    let i4 = i3 + 1;
    let i5 = i4 + member_total_of(entries).len();
    lemma_matches_first(s, i5, seq![',']);
    let n_total = entries.len() as u64;
    assert(dec_digits(n_total as nat) == dec_digits(entries.len()));
    lemma_parse_u64_member_round(s, i4, "total_uploaded"@, n_total);
    lemma_tok_char_round(s, i5, ',');
    let i6 = i5 + 1;
    lemma_parse_key_round(s, i6, "manifest_version"@);
    let i7 = i6 + key_version().len();
    let i8 = i7 + vtext.len();
    lemma_matches_first(s, i8, seq!['}']);
    if vstring {
        lemma_parse_string_round(s, i7, vres);
        assert(encode_json_string(vres) =~= seq!['"'] + (escape_string(vres) + seq!['"']));
        lemma_matches_split(s, i7, seq!['"'], escape_string(vres) + seq!['"']);
        lemma_matches_first(s, i7, seq!['"']);
        lemma_skip_ws_none(s, i7);
        assert(parse_version_value(s, i7) == Some((vres, i8)));
    } else {
        lemma_dec_digits_facts(vnum as nat);
        lemma_matches_first(s, i7, dec_digits(vnum as nat));
        lemma_skip_ws_none(s, i7);
        assert(is_dec_digit(s[i7]));
        lemma_parse_u64_round(s, i7, vnum);
        assert(s[i7] != '"' && s[i7] != '-');
        assert(parse_version_value(s, i7) == Some((Seq::<char>::empty(), i8)));
    }
    lemma_tok_char_round(s, i8, '}');
    let i9 = i8 + 1;
    assert(i9 == s.len());
    lemma_skip_ws_none(s, i9);
    assert(n_total as nat == entries.len());
}

/// Law: a saved tracker document loads back to exactly the tracker that was
/// saved, deep equality included. The entry count is bounded by what any
/// in-memory tracker can hold.
#[verifier::rlimit(100)]
pub proof fn lemma_tracker_round_trip(t: TrackerModel)
    requires
        hashes_unique(t.entries),
        t.entries.len() <= u64::MAX,
    ensures
        parse_tracker_spec(encode_tracker(t)) == Some(t),
{
    let s = encode_tracker(t);
    assert(s =~= doc_of(t.entries, encode_json_string(t.manifest_version)));
    lemma_parse_tracker_doc(s, t.entries, encode_json_string(t.manifest_version),
        t.manifest_version, 0u64, true);
}

/// What loading a document yields: the parsed tracker, or the empty one.
pub open spec fn load_model(s: Seq<char>) -> TrackerModel {
    match parse_tracker_spec(s) {
        Some(m) => m,
        None => TrackerModel { entries: Seq::empty(), manifest_version: Seq::empty() },
    }
}

/// Law: save then load converges after one cycle; loading what the first
/// loaded value saves changes nothing further.
#[verifier::rlimit(100)]
pub proof fn lemma_save_load_converges(t: TrackerModel)
    requires
        t.entries.len() <= u64::MAX,
    ensures
        load_model(encode_tracker(load_model(encode_tracker(t)))) == load_model(encode_tracker(t)),
{
    assert(encode_tracker(t) =~= doc_of(t.entries, encode_json_string(t.manifest_version)));
    lemma_parse_tracker_doc(encode_tracker(t), t.entries, encode_json_string(t.manifest_version),
        t.manifest_version, 0u64, true);
    if hashes_unique(t.entries) {
        assert(load_model(encode_tracker(t)) == t);
    } else {
        let e = TrackerModel { entries: Seq::empty(), manifest_version: Seq::empty() };
        assert(load_model(encode_tracker(t)) == e);
        assert(hashes_unique(e.entries));
        lemma_tracker_round_trip(e);
    }
}

/// A historical document, its version member an integer.
pub open spec fn encode_tracker_legacy(entries: Seq<TrackedReplayModel>, version: u64) -> Seq<
    char,
> {
    seq!['{'] + encode_json_string("replays"@) + seq![':'] + seq!['{'] + encode_entries(entries)
        + seq!['}'] + seq![','] + encode_json_string("total_uploaded"@) + seq![':'] + dec_digits(
        entries.len(),
    ) + seq![','] + encode_json_string("manifest_version"@) + seq![':'] + dec_digits(
        version as nat,
    ) + seq!['}']
}

/// Law: a historical document whose `manifest_version` is an integer loads
/// with the empty version — whatever the integer was — and its entries intact.
#[verifier::rlimit(100)]
pub proof fn lemma_legacy_manifest_version(entries: Seq<TrackedReplayModel>, version: u64)
    requires
        hashes_unique(entries),
        entries.len() <= u64::MAX,
    ensures
        parse_tracker_spec(encode_tracker_legacy(entries, version)) == Some(
            TrackerModel { entries, manifest_version: Seq::<char>::empty() },
        ),
{
    assert(encode_tracker_legacy(entries, version) =~= doc_of(entries, dec_digits(version as nat)));
    lemma_parse_tracker_doc(encode_tracker_legacy(entries, version), entries, dec_digits(
        version as nat,
    ), Seq::<char>::empty(), version, false);
}

} // verus!
