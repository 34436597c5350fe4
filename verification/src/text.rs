//! Text helpers shared by the parsers: character sequences of strings,
//! Unicode whitespace and trimming, ASCII classes, and decimal digits.

use vstd::prelude::*;
use vstd::utf8::*;

verus! {

/// The characters of `s`, in order.
pub fn chars_of(s: &str) -> (v: Vec<char>)
    ensures
        v@ == s@,
{
    broadcast use vstd::string::group_string_axioms;

    let mut v: Vec<char> = Vec::new();
    for c in it: s.chars()
        invariant
            v@ == it.seq().take(it.index() as int),
            it.seq() == s@,
    {
        v.push(c);
    }
    v
}

/// A `String` holding exactly the characters of `v`.
///
/// Trusted: `String::from_iter` over `char`s collects them in order into a
/// new string; the contract claims only that.
#[verifier::external_body]
pub(crate) fn string_of(v: Vec<char>) -> (s: String)
    ensures
        s@ == v@,
{
    String::from_iter(v)
}

/// The string of `bytes` when they are valid UTF-8.
///
/// Trusted: `std::str::from_utf8` succeeds exactly on valid UTF-8 and then
/// decodes it; the contract claims that, with UTF-8 validity and decoding as
/// `vstd::utf8` defines them.
#[verifier::external_body]
pub(crate) fn str_from_utf8(bytes: &[u8]) -> (res: Option<&str>)
    ensures
        res is Some <==> valid_utf8(bytes@),
        res matches Some(s) ==> s@ == decode_utf8(bytes@),
{
    std::str::from_utf8(bytes).ok()
}

/// The text that `String::from_utf8_lossy` makes of a byte sequence.
pub uninterp spec fn utf8_lossy(bytes: Seq<u8>) -> Seq<char>;

/// Trusted: `String::from_utf8_lossy` replaces invalid sequences with
/// U+FFFD and otherwise decodes; the contract names the result and states
/// only what its documentation promises, that valid UTF-8 is decoded as is.
#[verifier::external_body]
pub(crate) fn string_from_utf8_lossy(bytes: &[u8]) -> (s: String)
    ensures
        s@ == utf8_lossy(bytes@),
        valid_utf8(bytes@) ==> s@ == decode_utf8(bytes@),
{
    String::from_utf8_lossy(bytes).into_owned()
}

/// What `format!("{:?}", s)` writes for a string `s`.
pub uninterp spec fn debug_quoted(s: Seq<char>) -> Seq<char>;

/// The `Debug` form of a string.
///
/// Trusted: formats with `{:?}` (quoted, with escapes); the contract names
/// the result, which depends on the text alone.
#[verifier::external_body]
pub(crate) fn quoted(s: &str) -> (r: String)
    ensures
        r@ == debug_quoted(s@),
{
    format!("{s:?}")
}

/// Unicode `White_Space`, as `char::is_whitespace` tests it.
pub open spec fn is_ws(c: char) -> bool {
    ||| '\t' <= c <= '\r'
    ||| c == ' '
    ||| c == '\u{85}'
    ||| c == '\u{a0}'
    ||| c == '\u{1680}'
    ||| '\u{2000}' <= c <= '\u{200a}'
    ||| c == '\u{2028}'
    ||| c == '\u{2029}'
    ||| c == '\u{202f}'
    ||| c == '\u{205f}'
    ||| c == '\u{3000}'
}

pub fn is_whitespace(c: char) -> (b: bool)
    ensures
        b == is_ws(c),
{
    ('\t' <= c && c <= '\r') || c == ' ' || c == '\u{85}' || c == '\u{a0}' || c == '\u{1680}'
        || ('\u{2000}' <= c && c <= '\u{200a}') || c == '\u{2028}' || c == '\u{2029}'
        || c == '\u{202f}' || c == '\u{205f}' || c == '\u{3000}'
}

/// Index one past the last non-whitespace character (0 if there is none).
pub open spec fn trim_end_len(s: Seq<char>) -> nat
    decreases s.len(),
{
    if s.len() == 0 {
        0
    } else if is_ws(s.last()) {
        trim_end_len(s.drop_last())
    } else {
        s.len()
    }
}

/// Index of the first non-whitespace character (`s.len()` if there is none).
pub open spec fn trim_start_len(s: Seq<char>) -> nat
    decreases s.len(),
{
    if s.len() == 0 {
        0
    } else if is_ws(s[0]) {
        1 + trim_start_len(s.drop_first())
    } else {
        0
    }
}

/// `str::trim_end`.
pub open spec fn trim_end(s: Seq<char>) -> Seq<char> {
    s.take(trim_end_len(s) as int)
}

/// `str::trim_start`.
pub open spec fn trim_start(s: Seq<char>) -> Seq<char> {
    s.skip(trim_start_len(s) as int)
}

/// `str::trim`.
pub open spec fn trim(s: Seq<char>) -> Seq<char> {
    trim_end(trim_start(s))
}

pub proof fn lemma_trim_end_len(s: Seq<char>)
    ensures
        trim_end_len(s) <= s.len(),
        forall|i: int| trim_end_len(s) <= i < s.len() ==> is_ws(#[trigger] s[i]),
        trim_end_len(s) > 0 ==> !is_ws(s[trim_end_len(s) - 1]),
    decreases s.len(),
{
    if s.len() > 0 && is_ws(s.last()) {
        lemma_trim_end_len(s.drop_last());
        assert forall|i: int| trim_end_len(s) <= i < s.len() implies is_ws(#[trigger] s[i]) by {
            if i < s.len() - 1 {
                assert(s[i] == s.drop_last()[i]);
            }
        }
    }
}

pub proof fn lemma_trim_start_len(s: Seq<char>)
    ensures
        trim_start_len(s) <= s.len(),
        forall|i: int| 0 <= i < trim_start_len(s) ==> is_ws(#[trigger] s[i]),
        trim_start_len(s) < s.len() ==> !is_ws(s[trim_start_len(s) as int]),
    decreases s.len(),
{
    if s.len() > 0 && is_ws(s[0]) {
        lemma_trim_start_len(s.drop_first());
        assert forall|i: int| 0 <= i < trim_start_len(s) implies is_ws(#[trigger] s[i]) by {
            if i > 0 {
                assert(s[i] == s.drop_first()[i - 1]);
            }
        }
    }
}

/// The characters of `v[from..to]` without trailing whitespace: the end
/// index of the trimmed range.
pub fn trim_end_index(v: &Vec<char>, from: usize, to: usize) -> (e: usize)
    requires
        from <= to <= v.len(),
    ensures
        from <= e <= to,
        e - from == trim_end_len(v@.subrange(from as int, to as int)),
{
    let mut e = to;
    while e > from && is_whitespace(v[e - 1])
        invariant
            from <= e <= to <= v.len(),
            trim_end_len(v@.subrange(from as int, to as int)) == trim_end_len(
                v@.subrange(from as int, e as int),
            ),
        decreases e,
    {
        assert(v@.subrange(from as int, e as int).drop_last() =~= v@.subrange(
            from as int,
            e - 1,
        ));
        e = e - 1;
    }
    assert(v@.subrange(from as int, e as int).len() == e - from);
    e
}

/// The start index of `v[from..to]` once leading whitespace is skipped.
pub fn trim_start_index(v: &Vec<char>, from: usize, to: usize) -> (b: usize)
    requires
        from <= to <= v.len(),
    ensures
        from <= b <= to,
        b - from == trim_start_len(v@.subrange(from as int, to as int)),
{
    let mut b = from;
    while b < to && is_whitespace(v[b])
        invariant
            from <= b <= to <= v.len(),
            trim_start_len(v@.subrange(from as int, to as int)) == (b - from) + trim_start_len(
                v@.subrange(b as int, to as int),
            ),
        decreases to - b,
    {
        assert(v@.subrange(b as int, to as int).drop_first() =~= v@.subrange(
            b + 1,
            to as int,
        ));
        b = b + 1;
    }
    b
}

pub open spec fn is_ascii_digit(c: char) -> bool {
    '0' <= c <= '9'
}

pub open spec fn is_ascii_alpha(c: char) -> bool {
    ('a' <= c <= 'z') || ('A' <= c <= 'Z')
}

pub open spec fn is_ascii_alnum(c: char) -> bool {
    is_ascii_digit(c) || is_ascii_alpha(c)
}

/// `char::to_ascii_lowercase`.
pub open spec fn ascii_lower(c: char) -> char {
    if 'A' <= c <= 'Z' {
        ((c as u32) + 32) as char
    } else {
        c
    }
}

pub fn to_ascii_lower(c: char) -> (r: char)
    ensures
        r == ascii_lower(c),
{
    if 'A' <= c && c <= 'Z' {
        (((c as u32) + 32) as u8) as char
    } else {
        c
    }
}

/// The ASCII digit of `d` (`d < 10`).
pub open spec fn digit_char(d: nat) -> char {
    ((d + 48) as u8) as char
}

/// Decimal digits of `n`, most significant first, no leading zeros.
pub open spec fn nat_digits(n: nat) -> Seq<char>
    decreases n,
{
    if n < 10 {
        seq![digit_char(n)]
    } else {
        nat_digits(n / 10).push(digit_char(n % 10))
    }
}

/// `i64`'s `Display`: a minus sign for negatives, then the digits.
pub open spec fn int_text(v: int) -> Seq<char> {
    if v < 0 {
        seq!['-'] + nat_digits((-v) as nat)
    } else {
        nat_digits(v as nat)
    }
}

/// `n` spaces.
pub open spec fn spaces(n: nat) -> Seq<char> {
    Seq::new(n, |i: int| ' ')
}

/// Right-justify in a field of `w` characters (`{:>w}`).
pub open spec fn pad_left(s: Seq<char>, w: nat) -> Seq<char> {
    if s.len() < w {
        spaces((w - s.len()) as nat) + s
    } else {
        s
    }
}

/// Left-justify in a field of `w` characters (`{:<w}`).
pub open spec fn pad_right(s: Seq<char>, w: nat) -> Seq<char> {
    if s.len() < w {
        s + spaces((w - s.len()) as nat)
    } else {
        s
    }
}

/// Append the decimal digits of `n`.
pub fn push_digits(n: u64, out: &mut Vec<char>)
    ensures
        final(out)@ == old(out)@ + nat_digits(n as nat),
    decreases n,
{
    if n >= 10 {
        push_digits(n / 10, out);
    }
    let d = ((n % 10) as u8 + 48) as char;
    out.push(d);
    proof {
        if n >= 10 {
            assert(nat_digits(n as nat) == nat_digits((n / 10) as nat).push(digit_char((n % 10) as nat)));
        }
    }
}

/// Append the decimal digits of a size.
pub fn push_size(n: usize, out: &mut Vec<char>)
    ensures
        final(out)@ == old(out)@ + nat_digits(n as nat),
{
    push_digits(n as u64, out);
}

/// Append `int_text(v)`.
pub fn push_int(v: i64, out: &mut Vec<char>)
    ensures
        final(out)@ == old(out)@ + int_text(v as int),
{
    if v < 0 {
        out.push('-');
        let u: u64 = ((-(v + 1)) as u64) + 1;
        push_digits(u, out);
    } else {
        push_digits(v as u64, out);
    }
}

/// `n` zeros.
pub open spec fn zeros(n: nat) -> Seq<char> {
    Seq::new(n, |i: int| '0')
}

/// `s` with zeros in front, `w` characters in all.
pub open spec fn zero_fill(s: Seq<char>, w: nat) -> Seq<char> {
    if s.len() < w {
        zeros((w - s.len()) as nat) + s
    } else {
        s
    }
}

/// An integer as `{:0w}` writes it: the sign, then the digits filled with
/// zeros to `w` characters in all.
pub open spec fn zero_pad(v: int, w: nat) -> Seq<char> {
    if v < 0 {
        seq!['-'] + zero_fill(nat_digits((-v) as nat), if w >= 1 { (w - 1) as nat } else { 0 })
    } else {
        zero_fill(nat_digits(v as nat), w)
    }
}

/// Append `zero_pad(v, w)`.
pub fn push_zero_padded(v: i64, w: usize, out: &mut Vec<char>)
    ensures
        final(out)@ == old(out)@ + zero_pad(v as int, w as nat),
{
    let mut digits: Vec<char> = Vec::new();
    let width: usize = if v < 0 {
        out.push('-');
        let u: u64 = ((-(v + 1)) as u64) + 1;
        push_digits(u, &mut digits);
        if w >= 1 { w - 1 } else { 0 }
    } else {
        push_digits(v as u64, &mut digits);
        w
    };
    assert(digits@ =~= Seq::<char>::empty() + digits@);
    let ghost start = out@;
    let mut i: usize = digits.len();
    while i < width
        invariant
            digits.len() <= i <= width || (width < digits.len() && i == digits.len()),
            out@ == start + zeros((i - digits.len()) as nat),
        decreases width - i,
    {
        out.push('0');
        i = i + 1;
        assert(out@ =~= start + zeros((i - digits.len()) as nat));
    }
    push_all(&digits, out);
    assert(out@ =~= start + zero_fill(digits@, width as nat));
}

/// Append the characters of `s`.
pub fn push_str(s: &str, out: &mut Vec<char>)
    ensures
        final(out)@ == old(out)@ + s@,
{
    let c = chars_of(s);
    push_all(&c, out);
}

/// Append `n` spaces.
pub fn push_spaces(n: usize, out: &mut Vec<char>)
    ensures
        final(out)@ == old(out)@ + spaces(n as nat),
{
    let ghost start = out@;
    let mut i: usize = 0;
    while i < n
        invariant
            i <= n,
            out@ == start + spaces(i as nat),
        decreases n - i,
    {
        out.push(' ');
        i = i + 1;
        assert(out@ =~= start + spaces(i as nat));
    }
}

/// Append every element of `s`.
pub fn push_all(s: &Vec<char>, out: &mut Vec<char>)
    ensures
        final(out)@ == old(out)@ + s@,
{
    let ghost start = out@;
    let mut i: usize = 0;
    while i < s.len()
        invariant
            i <= s.len(),
            out@ == start + s@.take(i as int),
        decreases s.len() - i,
    {
        out.push(s[i]);
        i = i + 1;
        assert(out@ =~= start + s@.take(i as int));
    }
    assert(s@.take(s.len() as int) =~= s@);
}

/// Append `s` right-justified to width `w`.
pub fn push_pad_left(s: &Vec<char>, w: usize, out: &mut Vec<char>)
    ensures
        final(out)@ == old(out)@ + pad_left(s@, w as nat),
{
    if s.len() < w {
        push_spaces(w - s.len(), out);
    }
    push_all(s, out);
    proof {
        if s.len() < w {
            assert(old(out)@ + spaces((w - s.len()) as nat) + s@ =~= old(out)@ + pad_left(s@, w as nat));
        }
    }
}

/// Append `s` left-justified to width `w`.
pub fn push_pad_right(s: &Vec<char>, w: usize, out: &mut Vec<char>)
    ensures
        final(out)@ == old(out)@ + pad_right(s@, w as nat),
{
    push_all(s, out);
    if s.len() < w {
        push_spaces(w - s.len(), out);
    }
    proof {
        if s.len() < w {
            assert(old(out)@ + s@ + spaces((w - s.len()) as nat) =~= old(out)@ + pad_right(s@, w as nat));
        }
    }
}

/// Index of the first `c` in `s`, or `s.len()` when there is none.
pub open spec fn find_first(s: Seq<char>, c: char) -> nat
    decreases s.len(),
{
    if s.len() == 0 {
        0
    } else if s[0] == c {
        0
    } else {
        1 + find_first(s.drop_first(), c)
    }
}

pub proof fn lemma_find_first(s: Seq<char>, c: char)
    ensures
        find_first(s, c) <= s.len(),
        forall|i: int| 0 <= i < find_first(s, c) ==> #[trigger] s[i] != c,
        find_first(s, c) < s.len() ==> s[find_first(s, c) as int] == c,
    decreases s.len(),
{
    if s.len() > 0 && s[0] != c {
        lemma_find_first(s.drop_first(), c);
        assert forall|i: int| 0 <= i < find_first(s, c) implies #[trigger] s[i] != c by {
            if i > 0 {
                assert(s[i] == s.drop_first()[i - 1]);
            }
        }
    }
}

/// The index of the first `c` in `v[from..to]`, or `to`.
pub fn find_char(v: &Vec<char>, from: usize, to: usize, c: char) -> (r: usize)
    requires
        from <= to <= v.len(),
    ensures
        from <= r <= to,
        r - from == find_first(v@.subrange(from as int, to as int), c),
{
    let mut j = from;
    while j < to && v[j] != c
        invariant
            from <= j <= to <= v.len(),
            find_first(v@.subrange(from as int, to as int), c) == (j - from) + find_first(
                v@.subrange(j as int, to as int),
                c,
            ),
        decreases to - j,
    {
        assert(v@.subrange(j as int, to as int).drop_first() =~= v@.subrange(j + 1, to as int));
        j = j + 1;
    }
    j
}

/// Whether every character is an ASCII digit.
pub open spec fn all_digits(s: Seq<char>) -> bool {
    forall|i: int| 0 <= i < s.len() ==> is_ascii_digit(#[trigger] s[i])
}

/// The number the decimal digits of `s` spell.
pub open spec fn digits_value(s: Seq<char>) -> nat
    decreases s.len(),
{
    if s.len() == 0 {
        0
    } else {
        digits_value(s.drop_last()) * 10 + ((s.last() as nat) - 48) as nat
    }
}

/// 1 when `s` opens with `+` or `-`, else 0.
pub open spec fn sign_len(s: Seq<char>) -> nat {
    if s.len() > 0 && (s[0] == '+' || s[0] == '-') {
        1
    } else {
        0
    }
}

/// `str::parse::<i64>`: an optional sign, at least one ASCII digit, and a
/// value in range.
pub open spec fn parse_i64_spec(s: Seq<char>) -> Option<i64> {
    let body = s.skip(sign_len(s) as int);
    if body.len() == 0 || !all_digits(body) {
        None
    } else {
        let mag = digits_value(body) as int;
        let v = if sign_len(s) == 1 && s[0] == '-' {
            -mag
        } else {
            mag
        };
        if i64::MIN <= v <= i64::MAX {
            Some(v as i64)
        } else {
            None
        }
    }
}

/// `str::parse::<i64>` on `v[from..to]`.
pub fn parse_i64(v: &Vec<char>, from: usize, to: usize) -> (r: Option<i64>)
    requires
        from <= to <= v.len(),
    ensures
        r == parse_i64_spec(v@.subrange(from as int, to as int)),
{
    let ghost s = v@.subrange(from as int, to as int);
    let mut b = from;
    let mut neg = false;
    if from < to && (v[from] == '+' || v[from] == '-') {
        neg = v[from] == '-';
        b = from + 1;
    }
    assert(s.skip(sign_len(s) as int) =~= v@.subrange(b as int, to as int));
    if b == to {
        return None;
    }
    let limit: u128 = 0x8000_0000_0000_0000;
    let mut acc: u128 = 0;
    let mut over = false;
    let mut j = b;
    assert(v@.subrange(b as int, b as int) =~= Seq::<char>::empty());
    while j < to
        invariant
            b <= j <= to <= v.len(),
            all_digits(v@.subrange(b as int, j as int)),
            !over ==> acc == digits_value(v@.subrange(b as int, j as int)) && acc <= limit,
            over ==> digits_value(v@.subrange(b as int, j as int)) > limit,
            limit == 0x8000_0000_0000_0000u128,
            s == v@.subrange(from as int, to as int),
            s.skip(sign_len(s) as int) == v@.subrange(b as int, to as int),
            neg == (sign_len(s) == 1 && s[0] == '-'),
        decreases to - j,
    {
        let c = v[j];
        if !('0' <= c && c <= '9') {
            assert(!all_digits(v@.subrange(b as int, to as int))) by {
                assert(v@.subrange(b as int, to as int)[j - b] == c);
            }
            return None;
        }
        let ghost prev = v@.subrange(b as int, j as int);
        assert(v@.subrange(b as int, j + 1).drop_last() =~= prev);
        assert(v@.subrange(b as int, j + 1).last() == c);
        let d = (c as u32 - 48) as u128;
        if !over {
            acc = acc * 10 + d;
            if acc > limit {
                over = true;
            }
        }
        j = j + 1;
        assert forall|i: int| 0 <= i < v@.subrange(b as int, j as int).len() implies is_ascii_digit(
            #[trigger] v@.subrange(b as int, j as int)[i],
        ) by {
            if i < prev.len() {
                assert(v@.subrange(b as int, j as int)[i] == prev[i]);
            }
        }
    }
    if over {
        return None;
    }
    if neg {
        if acc == limit {
            Some(i64::MIN)
        } else {
            Some(-(acc as i64))
        }
    } else if acc < limit {
        Some(acc as i64)
    } else {
        None
    }
}

/// Compare two character vectors.
pub fn chars_eq(a: &Vec<char>, b: &Vec<char>) -> (r: bool)
    ensures
        r == (a@ == b@),
{
    if a.len() != b.len() {
        return false;
    }
    let mut i: usize = 0;
    while i < a.len()
        invariant
            i <= a.len() == b.len(),
            forall|j: int| 0 <= j < i ==> a@[j] == b@[j],
        decreases a.len() - i,
    {
        if a[i] != b[i] {
            return false;
        }
        i = i + 1;
    }
    assert(a@ =~= b@);
    true
}

/// Compare two strings.
pub fn str_eq(a: &str, b: &str) -> (r: bool)
    ensures
        r == (a@ == b@),
{
    let ac = chars_of(a);
    let bc = chars_of(b);
    chars_eq(&ac, &bc)
}

/// The characters `v[from..to]`.
pub fn sub_chars(v: &Vec<char>, from: usize, to: usize) -> (r: Vec<char>)
    requires
        from <= to <= v.len(),
    ensures
        r@ == v@.subrange(from as int, to as int),
{
    let mut r: Vec<char> = Vec::new();
    let mut j = from;
    while j < to
        invariant
            from <= j <= to <= v.len(),
            r@ == v@.subrange(from as int, j as int),
        decreases to - j,
    {
        r.push(v[j]);
        j = j + 1;
        assert(r@ =~= v@.subrange(from as int, j as int));
    }
    r
}

/// The items of `b` in decimal, separated by `", "`.
pub open spec fn decimal_list(b: Seq<u8>) -> Seq<char>
    decreases b.len(),
{
    if b.len() == 0 {
        seq![]
    } else if b.len() == 1 {
        nat_digits(b[0] as nat)
    } else {
        decimal_list(b.drop_last()) + seq![',', ' '] + nat_digits(b.last() as nat)
    }
}

/// `format!("{:?}", bytes)` for a byte slice: `[1, 2, 3]`.
pub open spec fn debug_bytes(b: Seq<u8>) -> Seq<char> {
    seq!['['] + decimal_list(b) + seq![']']
}

/// The `Debug` text of a byte slice.
pub fn debug_bytes_text(b: &[u8]) -> (s: String)
    ensures
        s@ == debug_bytes(b@),
{
    let mut out: Vec<char> = Vec::new();
    out.push('[');
    let mut i: usize = 0;
    while i < b.len()
        invariant
            i <= b.len(),
            out@ == seq!['['] + decimal_list(b@.take(i as int)),
        decreases b.len() - i,
    {
        let ghost before = out@;
        if i > 0 {
            out.push(',');
            out.push(' ');
        }
        push_digits(b[i] as u64, &mut out);
        assert(b@.take(i + 1).drop_last() =~= b@.take(i as int));
        i = i + 1;
        proof {
            if i == 1 {
                assert(out@ =~= seq!['['] + decimal_list(b@.take(i as int)));
            } else {
                assert(out@ =~= seq!['['] + decimal_list(b@.take(i as int)));
            }
        }
    }
    assert(b@.take(b.len() as int) =~= b@);
    out.push(']');
    string_of(out)
}

} // verus!
