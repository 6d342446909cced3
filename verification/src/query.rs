//! Percent-encoding of query-string values: any player name, non-ASCII or
//! reserved characters included, goes into the upload URL encoded and comes
//! back out unchanged.

use vstd::prelude::*;
use vstd::utf8::{encode_utf8, decode_utf8, valid_utf8, encode_utf8_decode_utf8,
    encode_utf8_valid_utf8};
use crate::codec::{hex_val, is_hex_digit};
use crate::text::chars_vec;

verus! {

/// The bytes that stand for themselves in a query value; everything else is
/// percent-escaped.
pub open spec fn is_unreserved(b: u8) -> bool {
    (65 <= b && b <= 90)  // A-Z
     || (97 <= b && b <= 122)  // a-z
     || (48 <= b && b <= 57)  // 0-9
     || b == 45 || b == 95 || b == 46 || b == 126  // - _ . ~
}

/// The uppercase hex digit character for a value below sixteen, as percent
/// escapes conventionally use.
pub open spec fn hex_upper_char(n: nat) -> char {
    if n == 0 {
        '0'
    } else if n == 1 {
        '1'
    } else if n == 2 {
        '2'
    } else if n == 3 {
        '3'
    } else if n == 4 {
        '4'
    } else if n == 5 {
        '5'
    } else if n == 6 {
        '6'
    } else if n == 7 {
        '7'
    } else if n == 8 {
        '8'
    } else if n == 9 {
        '9'
    } else if n == 10 {
        'A'
    } else if n == 11 {
        'B'
    } else if n == 12 {
        'C'
    } else if n == 13 {
        'D'
    } else if n == 14 {
        'E'
    } else {
        'F'
    }
}

/// One byte of the value as it appears in the query string.
pub open spec fn pct_byte(b: u8) -> Seq<char> {
    if is_unreserved(b) {
        seq![b as char]
    } else {
        seq!['%', hex_upper_char((b / 16) as nat), hex_upper_char((b % 16) as nat)]
    }
}

pub open spec fn pct_bytes(bs: Seq<u8>) -> Seq<char>
    decreases bs.len(),
{
    if bs.len() == 0 {
        Seq::empty()
    } else {
        pct_byte(bs[0]) + pct_bytes(bs.drop_first())
    }
}

/// The percent-encoded form of a string: its UTF-8 bytes, each unreserved
/// byte as itself, each other byte as a percent escape.
pub open spec fn encode_query_spec(s: Seq<char>) -> Seq<char> {
    pct_bytes(encode_utf8(s))
}

/// The bytes a percent-encoded text denotes, or nothing where the text is no
/// valid encoding. A plus sign stands for a space, as in form encoding.
pub open spec fn pct_decode(cs: Seq<char>) -> Option<Seq<u8>>
    decreases cs.len(),
{
    if cs.len() == 0 {
        Some(Seq::empty())
    } else if cs[0] == '%' {
        if cs.len() >= 3 && is_hex_digit(cs[1]) && is_hex_digit(cs[2]) {
            match pct_decode(cs.skip(3)) {
                None => None,
                Some(rest) => Some(
                    seq![(hex_val(cs[1]) * 16 + hex_val(cs[2])) as u8] + rest,
                ),
            }
        } else {
            None
        }
    } else if cs[0] == '+' {
        match pct_decode(cs.drop_first()) {
            None => None,
            Some(rest) => Some(seq![32u8] + rest),
        }
    } else if (cs[0] as u32) < 0x80 {
        match pct_decode(cs.drop_first()) {
            None => None,
            Some(rest) => Some(seq![(cs[0] as u32) as u8] + rest),
        }
    } else {
        None
    }
}

/// The string a percent-encoded query value denotes, or nothing where the
/// text is no valid encoding of UTF-8 text.
pub open spec fn decode_query_spec(cs: Seq<char>) -> Option<Seq<char>> {
    match pct_decode(cs) {
        None => None,
        Some(bs) => if valid_utf8(bs) {
            Some(decode_utf8(bs))
        } else {
            None
        },
    }
}

fn push_hex(out: &mut Vec<char>, n: u8)
    requires
        n < 16,
    ensures
        final(out)@ == old(out)@.push(hex_upper_char(n as nat)),
{
    if n < 10 {
        out.push((('0' as u8) + n) as char);
        proof {
            assert(((('0' as u8) + n) as char) == hex_upper_char(n as nat));
        }
    } else {
        out.push((('A' as u8) + (n - 10)) as char);
        proof {
            assert(((('A' as u8) + (n - 10) as u8) as char) == hex_upper_char(n as nat));
        }
    }
}

/// Percent-encode a query value.
pub fn encode_query_value(s: &str) -> (r: String)
    ensures
        r@ == encode_query_spec(s@),
{
    let bytes = s.as_bytes();
    let ghost bs = bytes@;
    proof {
        assert(bs == encode_utf8(s@));
    }
    let mut out: Vec<char> = Vec::new();
    let mut i: usize = 0;
    proof {
        assert(bs.skip(0) =~= bs);
        assert(out@ + pct_bytes(bs) =~= pct_bytes(bs));
    }
    while i < bytes.len()
        invariant
            i <= bs.len(),
            bs == bytes@,
            pct_bytes(bs) == out@ + pct_bytes(bs.skip(i as int)),
        decreases bs.len() - i,
    {
        let b = bytes[i];
        let ghost out0 = out@;
        proof {
            assert(bs.skip(i as int)[0] == b);
            assert(bs.skip(i as int).drop_first() =~= bs.skip(i + 1));
        }
        if (65 <= b && b <= 90) || (97 <= b && b <= 122) || (48 <= b && b <= 57) || b == 45 || b
            == 95 || b == 46 || b == 126 {
            out.push(b as char);
        } else {
            out.push('%');
            push_hex(&mut out, b / 16);
            push_hex(&mut out, b % 16);
        }
        proof {
            assert(out@ =~= out0 + pct_byte(b));
            assert(out0 + pct_byte(b) + pct_bytes(bs.skip(i + 1)) =~= out0 + (pct_byte(b)
                + pct_bytes(bs.skip(i + 1))));
        }
        i += 1;
    }
    proof {
        assert(bs.skip(bs.len() as int).len() == 0);
        assert(out@ + Seq::<char>::empty() =~= out@);
    }
    crate::text::string_from_chars(&out)
}

fn hex_val_u8(c: char) -> (r: u8)
    ensures
        r as nat == hex_val(c) || (r == 16 && !is_hex_digit(c)),
        is_hex_digit(c) ==> r < 16 && r as nat == hex_val(c),
{
    if '0' <= c && c <= '9' {
        ((c as u32) - ('0' as u32)) as u8
    } else if 'a' <= c && c <= 'f' {
        ((c as u32) - ('a' as u32) + 10) as u8
    } else if 'A' <= c && c <= 'F' {
        ((c as u32) - ('A' as u32) + 10) as u8
    } else {
        16
    }
}

/// Relies on `String::from_utf8`: it succeeds exactly on valid UTF-8, giving
/// the text those bytes encode.
#[verifier::external_body]
fn string_from_utf8(bytes: Vec<u8>) -> (r: Option<String>)
    ensures
        match r {
            Some(s) => valid_utf8(bytes@) && s@ == decode_utf8(bytes@),
            None => !valid_utf8(bytes@),
        },
{
    String::from_utf8(bytes).ok()
}

/// Decode a percent-encoded query value; `None` where the text is no valid
/// encoding.
pub fn decode_query_value(s: &str) -> (r: Option<String>)
    ensures
        match r {
            Some(t) => decode_query_spec(s@) == Some(t@),
            None => decode_query_spec(s@) is None,
        },
{
    let cs = chars_vec(s);
    let mut bytes: Vec<u8> = Vec::new();
    let mut i: usize = 0;
    proof {
        assert(cs@.skip(0) =~= cs@);
    }
    while i < cs.len()
        invariant
            i <= cs@.len(),
            cs@ == s@,
            match pct_decode(cs@.skip(i as int)) {
                Some(rest) => pct_decode(cs@) == Some(bytes@ + rest),
                None => pct_decode(cs@) is None,
            },
        decreases cs@.len() - i,
    {
        let c = cs[i];
        let ghost b0 = bytes@;
        proof {
            assert(cs@.skip(i as int)[0] == c);
            assert(cs@.skip(i as int).drop_first() =~= cs@.skip(i + 1));
        }
        if c == '%' {
            if cs.len() - i < 3 {
                proof {
                    assert(cs@.skip(i as int).len() < 3);
                }
                return None;
            }
            let h1 = hex_val_u8(cs[i + 1]);
            let h2 = hex_val_u8(cs[i + 2]);
            if h1 == 16 || h2 == 16 {
                return None;
            }
            let b = h1 * 16 + h2;
            bytes.push(b);
            proof {
                assert(cs@.skip(i as int)[1] == cs@[i + 1]);
                assert(cs@.skip(i as int)[2] == cs@[i + 2]);
                assert(cs@.skip(i as int).skip(3) =~= cs@.skip(i + 3));
                if pct_decode(cs@.skip(i + 3)) is Some {
                    let rest = pct_decode(cs@.skip(i + 3))->Some_0;
                    assert(b0 + (seq![b] + rest) =~= bytes@ + rest);
                }
            }
            i += 3;
        } else if c == '+' {
            bytes.push(32);
            proof {
                if pct_decode(cs@.skip(i + 1)) is Some {
                    let rest = pct_decode(cs@.skip(i + 1))->Some_0;
                    assert(b0 + (seq![32u8] + rest) =~= bytes@ + rest);
                }
            }
            i += 1;
        } else if (c as u32) < 0x80 {
            bytes.push((c as u32) as u8);
            proof {
                if pct_decode(cs@.skip(i + 1)) is Some {
                    let rest = pct_decode(cs@.skip(i + 1))->Some_0;
                    assert(b0 + (seq![(c as u32) as u8] + rest) =~= bytes@ + rest);
                }
            }
            i += 1;
        } else {
            return None;
        }
    }
    proof {
        assert(cs@.skip(cs@.len() as int).len() == 0);
        assert(bytes@ + Seq::<u8>::empty() =~= bytes@);
        assert(pct_decode(cs@) == Some(bytes@));
    }
    string_from_utf8(bytes)
}

/// Unescaping undoes escaping, byte for byte.
proof fn lemma_pct_round(bs: Seq<u8>)
    ensures
        pct_decode(pct_bytes(bs)) == Some(bs),
    decreases bs.len(),
{
    if bs.len() == 0 {
        assert(pct_bytes(bs).len() == 0);
    } else {
        let b = bs[0];
        let rest = bs.drop_first();
        lemma_pct_round(rest);
        let w = pct_bytes(bs);
        assert(w == pct_byte(b) + pct_bytes(rest));
        if is_unreserved(b) {
            let c = b as char;
            assert(w[0] == c);
            assert((c as u32) == b as u32);
            assert(c != '%' && c != '+');
            assert((c as u32) < 0x80);
            assert(w.drop_first() =~= pct_bytes(rest));
            assert((c as u32) as u8 == b);
            assert(seq![b] + rest =~= bs);
        } else {
            assert(w[0] == '%');
            assert(w.len() >= 3);
            assert(w[1] == hex_upper_char((b / 16) as nat));
            assert(w[2] == hex_upper_char((b % 16) as nat));
            assert(hex_val(w[1]) == (b / 16) as nat && is_hex_digit(w[1]));
            assert(hex_val(w[2]) == (b % 16) as nat && is_hex_digit(w[2]));
            assert(w.skip(3) =~= pct_bytes(rest));
            vstd::arithmetic::div_mod::lemma_fundamental_div_mod(b as int, 16);
            assert((hex_val(w[1]) * 16 + hex_val(w[2])) as u8 == b);
            assert(seq![b] + rest =~= bs);
        }
    }
}

/// Law: percent-encoding round-trips. Any query value — non-ASCII names and
/// reserved characters included — decodes from its encoded form to exactly
/// the original string.
pub proof fn lemma_query_round_trip(s: Seq<char>)
    ensures
        decode_query_spec(encode_query_spec(s)) == Some(s),
{
    lemma_pct_round(encode_utf8(s));
    encode_utf8_valid_utf8(s);
    encode_utf8_decode_utf8(s);
}

} // verus!
