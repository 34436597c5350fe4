//! Request decoding for the nova.astrometry.net-compatible API: the
//! `request-json` field of an urlencoded body, percent-decoded; and the
//! session tokens a login hands out.

use vstd::prelude::*;
use vstd::utf8::*;

use crate::server::hash::{hex_char, hex_digit_char};
use crate::text::{chars_of, find_char, find_first, lemma_find_first, str_eq, string_from_utf8_lossy, string_of, sub_chars, utf8_lossy};

verus! {

/// The value of a hexadecimal digit byte.
pub open spec fn hex_digit(b: u8) -> Option<u8> {
    if 0x30 <= b <= 0x39 {
        Some((b - 0x30) as u8)
    } else if 0x61 <= b <= 0x66 {
        Some((b - 0x61 + 10) as u8)
    } else if 0x41 <= b <= 0x46 {
        Some((b - 0x41 + 10) as u8)
    } else {
        None
    }
}

/// The byte that the two characters after a `%` stand for, as
/// `u8::from_str_radix(.., 16)` reads them: two hex digits, or a `+` sign
/// and one.
pub open spec fn escape_value(b1: u8, b2: u8) -> Option<u8> {
    match (hex_digit(b1), hex_digit(b2)) {
        (Some(h), Some(l)) => Some((h * 16 + l) as u8),
        (None, Some(l)) => if b1 == 0x2B { Some(l) } else { None },
        _ => None,
    }
}

/// Form decoding of bytes: `+` is a space, `%XX` the byte XX (left as is
/// when the two bytes after `%` are not an escape or not both there).
pub open spec fn percent_decoded(b: Seq<u8>) -> Seq<u8>
    decreases b.len(),
{
    if b.len() == 0 {
        seq![]
    } else if b[0] == 0x2B {
        seq![0x20u8] + percent_decoded(b.skip(1))
    } else if b[0] == 0x25 && 2 < b.len() && escape_value(b[1], b[2]) is Some {
        seq![escape_value(b[1], b[2])->0] + percent_decoded(b.skip(3))
    } else {
        seq![b[0]] + percent_decoded(b.skip(1))
    }
}

fn hex_value(b: u8) -> (r: Option<u8>)
    ensures
        r == hex_digit(b),
{
    if 0x30 <= b && b <= 0x39 {
        Some(b - 0x30)
    } else if 0x61 <= b && b <= 0x66 {
        Some(b - 0x61 + 10)
    } else if 0x41 <= b && b <= 0x46 {
        Some(b - 0x41 + 10)
    } else {
        None
    }
}

fn escape(b1: u8, b2: u8) -> (r: Option<u8>)
    ensures
        r == escape_value(b1, b2),
{
    match (hex_value(b1), hex_value(b2)) {
        (Some(h), Some(l)) => Some(h * 16 + l),
        (None, Some(l)) => if b1 == 0x2B { Some(l) } else { None },
        _ => None,
    }
}

/// The byte of hex digit `d` (below 16): `0`-`9`, then `a`-`f`, or `A`-`F`
/// when `upper`.
pub open spec fn hex_digit_byte(d: u8, upper: bool) -> u8 {
    if d < 10 {
        (0x30 + d) as u8
    } else if upper {
        (0x41 + d - 10) as u8
    } else {
        (0x61 + d - 10) as u8
    }
}

/// Every byte written as `%` and two hex digits, each in either case,
/// decodes back to that byte, and the decoding goes on after the escape:
/// hex digits are read case-insensitively.
pub proof fn lemma_escape_round_trip(v: u8, upper_high: bool, upper_low: bool, rest: Seq<u8>)
    ensures
        percent_decoded(seq![0x25u8, hex_digit_byte(v / 16, upper_high), hex_digit_byte(v % 16, upper_low)] + rest)
            == seq![v] + percent_decoded(rest),
{
    let b = seq![0x25u8, hex_digit_byte(v / 16, upper_high), hex_digit_byte(v % 16, upper_low)] + rest;
    let h = v / 16;
    let l = v % 16;
    assert(hex_digit(hex_digit_byte(h, upper_high)) == Some(h));
    assert(hex_digit(hex_digit_byte(l, upper_low)) == Some(l));
    assert(b[1] == hex_digit_byte(h, upper_high));
    assert(b[2] == hex_digit_byte(l, upper_low));
    assert((h * 16 + l) as u8 == v);
    assert(b.skip(3) =~= rest);
}

/// Decode a form-urlencoded value: `+` is a space, `%XX` a byte; the bytes
/// are then read as UTF-8, invalid sequences replaced.
pub fn percent_decode(s: &str) -> (r: String)
    ensures
        r@ == utf8_lossy(percent_decoded(encode_utf8(s@))),
        valid_utf8(percent_decoded(encode_utf8(s@))) ==> r@ == decode_utf8(percent_decoded(encode_utf8(s@))),
{
    let bytes = s.as_bytes();
    let mut out: Vec<u8> = Vec::new();
    let mut i: usize = 0;
    assert(bytes@.skip(0) =~= bytes@);
    while i < bytes.len()
        invariant
            i <= bytes@.len(),
            percent_decoded(bytes@) == out@ + percent_decoded(bytes@.skip(i as int)),
        decreases bytes.len() - i,
    {
        let ghost t = bytes@.skip(i as int);
        let b = bytes[i];
        assert(t[0] == b);
        if b == 0x2Bu8 {
            out.push(0x20u8);
            assert(t.skip(1) =~= bytes@.skip(i + 1));
            i = i + 1;
        } else if b == 0x25u8 && bytes.len() > 2 && i < bytes.len() - 2 && escape(bytes[i + 1], bytes[i + 2]).is_some() {
            assert(t[1] == bytes@[i + 1] && t[2] == bytes@[i + 2]);
            let v = match escape(bytes[i + 1], bytes[i + 2]) {
                Some(v) => v,
                None => 0,
            };
            out.push(v);
            assert(t.skip(3) =~= bytes@.skip(i + 3));
            i = i + 3;
        } else {
            proof {
                if b == 0x25u8 && 2 < t.len() {
                    assert(t[1] == bytes@[i + 1] && t[2] == bytes@[i + 2]);
                }
            }
            out.push(b);
            assert(t.skip(1) =~= bytes@.skip(i + 1));
            i = i + 1;
        }
        assert(percent_decoded(bytes@) =~= out@ + percent_decoded(bytes@.skip(i as int)));
    }
    assert(bytes@.skip(bytes@.len() as int) =~= Seq::<u8>::empty());
    assert(out@ + Seq::<u8>::empty() =~= out@);
    string_from_utf8_lossy(out.as_slice())
}

/// `str::split` on a character: the pieces between its occurrences.
pub open spec fn split_on(s: Seq<char>, c: char) -> Seq<Seq<char>>
    decreases s.len(),
{
    let i = find_first(s, c);
    if i >= s.len() {
        seq![s]
    } else {
        seq![s.take(i as int)] + split_on(s.skip(i + 1int), c)
    }
}

/// The raw value of the first `name=value` pair whose name is `key`: what
/// follows its first `=`, empty when there is none.
pub open spec fn pair_value(pairs: Seq<Seq<char>>, key: Seq<char>) -> Option<Seq<char>>
    decreases pairs.len(),
{
    if pairs.len() == 0 {
        None
    } else {
        let p = pairs[0];
        let e = find_first(p, '=');
        if p.take(e as int) == key {
            Some(if e < p.len() { p.skip(e + 1int) } else { seq![] })
        } else {
            pair_value(pairs.drop_first(), key)
        }
    }
}

/// The `request-json` payload of an urlencoded body (as NINA posts it),
/// percent-decoded; `None` when the body has no such field.
pub fn request_json_field(body: &str) -> (r: Option<String>)
    ensures
        match pair_value(split_on(body@, '&'), "request-json"@) {
            Some(raw) => r matches Some(v) && v@ == utf8_lossy(percent_decoded(encode_utf8(raw)))
                && (valid_utf8(percent_decoded(encode_utf8(raw))) ==> v@ == decode_utf8(percent_decoded(encode_utf8(raw)))),
            None => r is None,
        },
{
    let c = chars_of(body);
    let key = chars_of("request-json");
    let mut i: usize = 0;
    assert(c@.skip(0) =~= c@);
    loop
        invariant
            i <= c@.len(),
            c@ == body@,
            key@ == "request-json"@,
            pair_value(split_on(body@, '&'), "request-json"@) == pair_value(split_on(c@.skip(i as int), '&'), "request-json"@),
        decreases c@.len() - i,
    {
        let ghost t = c@.skip(i as int);
        let amp = find_char(&c, i, c.len(), '&');
        proof { lemma_find_first(t, '&'); }
        assert(c@.subrange(i as int, c@.len() as int) =~= t);
        let pair = sub_chars(&c, i, amp);
        assert(pair@ =~= t.take(amp - i));
        let eq = find_char(&pair, 0, pair.len(), '=');
        proof { lemma_find_first(pair@, '='); }
        assert(pair@.subrange(0, pair@.len() as int) =~= pair@);
        let name = sub_chars(&pair, 0, eq);
        assert(name@ =~= pair@.take(eq as int));
        let ghost pieces = split_on(t, '&');
        assert(pieces[0] == pair@);
        if crate::text::chars_eq(&name, &key) {
            let raw = if eq < pair.len() { sub_chars(&pair, eq + 1, pair.len()) } else { Vec::new() };
            proof {
                if eq < pair.len() {
                    assert(raw@ =~= pair@.skip(eq + 1));
                } else {
                    assert(raw@ =~= Seq::<char>::empty());
                }
            }
            let raw_text = string_of(raw);
            let raw_str = raw_text.as_str();
            let decoded = percent_decode(raw_str);
            return Some(decoded);
        }
        if amp >= c.len() {
            assert(pieces =~= seq![t]);
            assert(pieces.drop_first() =~= Seq::<Seq<char>>::empty());
            assert(pair_value(Seq::<Seq<char>>::empty(), "request-json"@) is None);
            assert(pair@ =~= t);
            return None;
        }
        assert(t.skip(amp - i + 1) =~= c@.skip(amp + 1));
        assert(pieces.drop_first() == split_on(c@.skip(amp + 1), '&'));
        i = amp + 1;
    }
}

/// The number behind a login's session token: the clock reading `nanos`
/// and the process id, scrambled. Tokens need no cryptographic strength
/// (there is no authentication), only to differ between logins.
pub open spec fn session_value(nanos: u128, pid: u32) -> u128 {
    let x = nanos ^ ((pid as u128) << 64u128);
    let z = x.wrapping_mul(0x9E3779B97F4A7C15_9E3779B97F4A7C15u128);
    let z = z ^ (z >> 61u128);
    z.wrapping_mul(0xBF58476D1CE4E5B9_BF58476D1CE4E5B9u128)
}

/// `v` as 32 lowercase hex digits, most significant first (`{:032x}`).
pub open spec fn hex32(v: u128) -> Seq<char> {
    Seq::new(32, |i: int| hex_char(((v >> ((124 - 4 * i) as u128)) & 15u128) as u8))
}

/// A login's session token: `session_value` as 32 hex digits.
pub fn session_token(nanos: u128, pid: u32) -> (r: String)
    ensures
        r@ == hex32(session_value(nanos, pid)),
{
    let x = nanos ^ ((pid as u128) << 64u128);
    let z = x.wrapping_mul(0x9E3779B97F4A7C15_9E3779B97F4A7C15u128);
    let z = z ^ (z >> 61u128);
    let v = z.wrapping_mul(0xBF58476D1CE4E5B9_BF58476D1CE4E5B9u128);
    let mut out: Vec<char> = Vec::new();
    let mut i: u32 = 0;
    while i < 32
        invariant
            i <= 32,
            v == session_value(nanos, pid),
            out@ == hex32(v).take(i as int),
        decreases 32 - i,
    {
        let sh: u128 = (124 - 4 * i) as u128;
        let d = (v >> sh) & 15u128;
        assert(d < 16) by (bit_vector)
            requires
                d == (v >> sh) & 15u128,
        ;
        let c = hex_digit_char(d as u8);
        out.push(c);
        assert(out@ =~= hex32(v).take(i + 1));
        i = i + 1;
    }
    string_of(out)
}

} // verus!
