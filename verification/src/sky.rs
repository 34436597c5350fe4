//! Civil calendar arithmetic (proleptic Gregorian, UTC) and the text helpers
//! of the sky chart.

use vstd::prelude::*;

use crate::text::{push_str, push_zero_padded, string_of, zero_pad};

verus! {

/// Days from 1970-01-01 to the civil date `y-m-d` (Howard Hinnant's
/// `days_from_civil`).
pub open spec fn days_from_civil_spec(y: int, m: int, d: int) -> int {
    let y = if m <= 2 { y - 1 } else { y };
    let era = y / 400;
    let yoe = y - era * 400;
    let doy = (153 * (if m > 2 { m - 3 } else { m + 9 }) + 2) / 5 + d - 1;
    let doe = yoe * 365 + yoe / 4 - yoe / 100 + doy;
    era * 146097 + doe - 719468
}

/// The civil date `days` after 1970-01-01, as (year, month, day) (Howard
/// Hinnant's `civil_from_days`).
pub open spec fn civil_from_days_spec(days: int) -> (int, int, int) {
    let z = days + 719468;
    let era = z / 146097;
    let doe = z % 146097;
    let yoe = (doe - doe / 1460 + doe / 36524 - doe / 146096) / 365;
    let y = yoe + era * 400;
    let doy = doe - (365 * yoe + yoe / 4 - yoe / 100);
    let mp = (5 * doy + 2) / 153;
    let d = doy - (153 * mp + 2) / 5 + 1;
    let m = if mp < 10 { mp + 3 } else { mp - 9 };
    (if m <= 2 { y + 1 } else { y }, m, d)
}

/// The year-of-era and day-of-year bounds behind the civil conversion.
proof fn lemma_era_day(doe: int)
    requires
        0 <= doe < 146097,
    ensures
        0 <= (doe - doe / 1460 + doe / 36524 - doe / 146096) / 365 <= 399,
        ({
            let yoe = (doe - doe / 1460 + doe / 36524 - doe / 146096) / 365;
            let doy = doe - (365 * yoe + yoe / 4 - yoe / 100);
            0 <= doy <= 365
        }),
{
    let yoe = (doe - doe / 1460 + doe / 36524 - doe / 146096) / 365;
    let doy = doe - (365 * yoe + yoe / 4 - yoe / 100);
    assert(0 <= yoe <= 399) by (nonlinear_arith)
        requires
            yoe == (doe - doe / 1460 + doe / 36524 - doe / 146096) / 365,
            0 <= doe < 146097,
    ;
    assert(0 <= doy <= 365) by (nonlinear_arith)
        requires
            yoe == (doe - doe / 1460 + doe / 36524 - doe / 146096) / 365,
            doy == doe - (365 * yoe + yoe / 4 - yoe / 100),
            0 <= doe < 146097,
            0 <= yoe <= 399,
    ;
}

/// Converting a day count to a civil date and back gives the day count, and
/// the date has a month in 1..=12 and a day in 1..=31.
pub proof fn lemma_civil_round_trip(days: int)
    ensures
        ({
            let (y, m, d) = civil_from_days_spec(days);
            &&& 1 <= m <= 12
            &&& 1 <= d <= 31
            &&& days_from_civil_spec(y, m, d) == days
        }),
{
    let z = days + 719468;
    let era = z / 146097;
    let doe = z % 146097;
    lemma_era_day(doe);
    let yoe = (doe - doe / 1460 + doe / 36524 - doe / 146096) / 365;
    let y = yoe + era * 400;
    let doy = doe - (365 * yoe + yoe / 4 - yoe / 100);
    let mp = (5 * doy + 2) / 153;
    assert(0 <= mp <= 11);
    let d = doy - (153 * mp + 2) / 5 + 1;
    assert(1 <= d <= 31);
    let m = if mp < 10 { mp + 3 } else { mp - 9 };
    let yy = if m <= 2 { y + 1 } else { y };
    let y2 = if m <= 2 { yy - 1 } else { yy };
    assert(y2 == y);
    assert(y / 400 == era) by (nonlinear_arith)
        requires
            y == yoe + era * 400,
            0 <= yoe <= 399,
    ;
    assert((if m > 2 { m - 3 } else { m + 9 }) == mp);
    assert(z == era * 146097 + doe) by (nonlinear_arith)
        requires
            era == z / 146097,
            doe == z % 146097,
    ;
}

/// `a.div_euclid(b)` for a positive divisor: the floor of `a / b`.
fn div_floor(a: i64, b: i64) -> (q: i64)
    requires
        b > 0,
    ensures
        q == a as int / b as int,
{
    assert(i64::MIN <= a as int / b as int <= i64::MAX) by (nonlinear_arith)
        requires
            b > 0,
            i64::MIN <= a <= i64::MAX,
    ;
    match a.checked_div_euclid(b) {
        Some(q) => q,
        None => 0,
    }
}

/// `a.rem_euclid(b)` for a positive divisor.
fn rem_floor(a: i64, b: i64) -> (r: i64)
    requires
        b > 0,
    ensures
        r == a as int % b as int,
{
    match a.checked_rem_euclid(b) {
        Some(r) => r,
        None => 0,
    }
}

/// Days since 1970-01-01 of the civil date `y-m-d`.
pub fn days_from_civil(y: i64, m: i64, d: i64) -> (r: i64)
    requires
        -25_000_000_000_000_000 <= y <= 25_000_000_000_000_000,
        1 <= m <= 12,
        1 <= d <= 31,
    ensures
        r == days_from_civil_spec(y as int, m as int, d as int),
{
    let y = if m <= 2 { y - 1 } else { y };
    let era = div_floor(y, 400);
    let yoe = y - era * 400;
    let doy = (153 * (if m > 2 { m - 3 } else { m + 9 }) + 2) / 5 + d - 1;
    assert(0 <= yoe < 400);
    let doe = yoe * 365 + yoe / 4 - yoe / 100 + doy;
    era * 146_097 + doe - 719_468
}

/// The civil date (year, month, day) `days` after 1970-01-01.
pub fn civil_from_days(days: i64) -> (r: (i64, i64, i64))
    requires
        -200_000_000_000_000 <= days <= 200_000_000_000_000,
    ensures
        (r.0 as int, r.1 as int, r.2 as int) == civil_from_days_spec(days as int),
{
    let z = days + 719_468;
    let era = div_floor(z, 146_097);
    let doe = rem_floor(z, 146_097);
    proof { lemma_era_day(doe as int); }
    let yoe = (doe - doe / 1460 + doe / 36_524 - doe / 146_096) / 365;
    let y = yoe + era * 400;
    let doy = doe - (365 * yoe + yoe / 4 - yoe / 100);
    let mp = (5 * doy + 2) / 153;
    let dd = doy - (153 * mp + 2) / 5 + 1;
    let mm = if mp < 10 { mp + 3 } else { mp - 9 };
    let yy = if mm <= 2 { y + 1 } else { y };
    (yy, mm, dd)
}

/// Whole seconds as (days, hours, minutes, seconds) of UTC.
pub open spec fn split_seconds(secs: int) -> (int, int, int, int) {
    let rem = secs % 86400;
    (secs / 86400, rem / 3600, (rem % 3600) / 60, rem % 60)
}

/// "YYYY-MM-DD HH:MM:SS" for Unix seconds.
pub open spec fn utc_text(secs: int) -> Seq<char> {
    let (days, h, mi, s) = split_seconds(secs);
    let (y, m, d) = civil_from_days_spec(days);
    zero_pad(y, 4) + seq!['-'] + zero_pad(m, 2) + seq!['-'] + zero_pad(d, 2) + seq![' ']
        + zero_pad(h, 2) + seq![':'] + zero_pad(mi, 2) + seq![':'] + zero_pad(s, 2)
}

/// Append "YYYY-MM-DD HH:MM:SS" for Unix seconds `secs`.
pub fn push_utc(secs: i64, out: &mut Vec<char>)
    ensures
        final(out)@ == old(out)@ + utc_text(secs as int),
{
    let days = div_floor(secs, 86_400);
    let rem = rem_floor(secs, 86_400);
    let h = rem / 3600;
    let mi = (rem % 3600) / 60;
    let s = rem % 60;
    let (y, m, d) = civil_from_days(days);
    let ghost start = out@;
    push_zero_padded(y, 4, out);
    out.push('-');
    push_zero_padded(m, 2, out);
    out.push('-');
    push_zero_padded(d, 2, out);
    out.push(' ');
    push_zero_padded(h, 2, out);
    out.push(':');
    push_zero_padded(mi, 2, out);
    out.push(':');
    push_zero_padded(s, 2, out);
    assert(out@ =~= start + utc_text(secs as int));
}

/// Unix seconds → "YYYY-MM-DD HH:MM:SS" UTC.
pub fn format_utc_secs(secs: i64) -> (r: String)
    ensures
        r@ == utc_text(secs as int),
{
    let mut out: Vec<char> = Vec::new();
    push_utc(secs, &mut out);
    assert(out@ =~= utc_text(secs as int));
    string_of(out)
}

/// `s` with `&`, `<` and `>` written as XML entities.
pub open spec fn xml_escaped(s: Seq<char>) -> Seq<char>
    decreases s.len(),
{
    if s.len() == 0 {
        seq![]
    } else {
        let c = s.last();
        let e = if c == '&' {
            "&amp;"@
        } else if c == '<' {
            "&lt;"@
        } else if c == '>' {
            "&gt;"@
        } else {
            seq![c]
        };
        xml_escaped(s.drop_last()) + e
    }
}

/// Escape text for an SVG text node.
pub fn esc(s: &str) -> (r: String)
    ensures
        r@ == xml_escaped(s@),
{
    let cs = crate::text::chars_of(s);
    let mut out: Vec<char> = Vec::new();
    let mut i: usize = 0;
    while i < cs.len()
        invariant
            i <= cs@.len(),
            cs@ == s@,
            out@ == xml_escaped(cs@.take(i as int)),
        decreases cs.len() - i,
    {
        let c = cs[i];
        if c == '&' {
            push_str("&amp;", &mut out);
        } else if c == '<' {
            push_str("&lt;", &mut out);
        } else if c == '>' {
            push_str("&gt;", &mut out);
        } else {
            out.push(c);
        }
        assert(cs@.take(i + 1).drop_last() =~= cs@.take(i as int));
        i = i + 1;
    }
    assert(cs@.take(cs@.len() as int) =~= cs@);
    string_of(out)
}

} // verus!
