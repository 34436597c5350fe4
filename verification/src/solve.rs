//! Plate-solving vocabulary shared by the engine and the server: parity
//! requests, index code invariants, the errors a solve ends with, the WCS
//! keywords a fresh solution replaces, and the member combinations a quad
//! search walks through.

use vstd::prelude::*;

use crate::text::{
    chars_of, debug_quoted, find_char, find_first, is_ascii_digit, lemma_find_first, push_str, quoted, str_eq,
    string_of, sub_chars, trim, trim_end_index, trim_start_index,
};

verus! {

/// Which image parities a solve considers.
#[derive(Debug, Clone, Copy, PartialEq, Eq)]
pub enum Parity {
    Normal,
    Flip,
    Both,
}

impl Parity {
    /// nova's `parity` field: 0 is normal, 1 flipped, anything else both.
    pub fn from_nova(v: i64) -> (p: Parity)
        ensures
            p == (if v == 0 {
                Parity::Normal
            } else if v == 1 {
                Parity::Flip
            } else {
                Parity::Both
            }),
    {
        match v {
            0 => Parity::Normal,
            1 => Parity::Flip,
            _ => Parity::Both,
        }
    }
}

/// The parity a form's `parity` field asks for: empty or absent is both.
pub open spec fn parity_named(v: Option<Seq<char>>) -> Result<Parity, Seq<char>> {
    match v {
        None => Ok(Parity::Both),
        Some(s) => {
            let t = trim(s);
            if t.len() == 0 || t == "both"@ {
                Ok(Parity::Both)
            } else if t == "normal"@ {
                Ok(Parity::Normal)
            } else if t == "flip"@ {
                Ok(Parity::Flip)
            } else {
                Err("parity must be normal, flip or both (got "@ + debug_quoted(t) + ")"@)
            }
        },
    }
}

impl Parity {
    /// The parity a form field names (`normal`, `flip` or `both`, around
    /// spaces), or the message refusing it.
    pub fn from_field(v: Option<&str>) -> (r: Result<Parity, String>)
        ensures
            match parity_named(match v { Some(s) => Some(s@), None => None }) {
                Ok(p) => r == Ok::<Parity, String>(p),
                Err(m) => r matches Err(e) && e@ == m,
            },
    {
        let s = match v {
            None => return Ok(Parity::Both),
            Some(s) => s,
        };
        let c = chars_of(s);
        let b = trim_start_index(&c, 0, c.len());
        let e = trim_end_index(&c, b, c.len());
        assert(c@.subrange(0, c@.len() as int) =~= c@);
        if e == b {
            assert(trim(s@) =~= Seq::<char>::empty());
            return Ok(Parity::Both);
        }
        let t = string_of(sub_chars(&c, b, e));
        assert(t@ =~= trim(s@));
        let ts = t.as_str();
        if str_eq(ts, "both") {
            Ok(Parity::Both)
        } else if str_eq(ts, "normal") {
            Ok(Parity::Normal)
        } else if str_eq(ts, "flip") {
            Ok(Parity::Flip)
        } else {
            let mut m = chars_of("parity must be normal, flip or both (got ");
            let q = quoted(ts);
            push_str(q.as_str(), &mut m);
            push_str(")", &mut m);
            Err(string_of(m))
        }
    }
}

/// Invariant flags of the index being searched.
#[derive(Debug, Clone, Copy)]
pub struct CodeInvariants {
    pub cx_le_dx: bool,
    pub meanx_le_half: bool,
}

/// Why a solve produced no calibration.
#[derive(Debug)]
pub enum SolveError {
    /// The engine could not be set up.
    Setup(String),
    /// The image could not be decoded.
    Decode(String),
    /// No solution found.
    NoSolution,
    /// The solve ran out of time.
    Timeout,
}

/// Keywords that are WCS terms whatever their spelling of axes.
pub open spec fn exact_wcs_keys() -> Seq<Seq<char>> {
    seq![
        "WCSAXES"@, "WCSNAME"@, "EQUINOX"@, "EPOCH"@, "RADESYS"@, "RADECSYS"@, "LONPOLE"@, "LATPOLE"@,
        "IMAGEW"@, "IMAGEH"@, "A_ORDER"@, "B_ORDER"@, "AP_ORDER"@, "BP_ORDER"@, "A_DMAX"@, "B_DMAX"@,
    ]
}

/// Prefixes of the axis-numbered keywords (`CTYPE1`, `CRVAL2`, ...).
pub open spec fn axis_prefixes() -> Seq<Seq<char>> {
    seq!["CTYPE"@, "CUNIT"@, "CRVAL"@, "CRPIX"@, "CDELT"@, "CROTA"@, "CRDER"@, "CSYER"@, "CNAME"@]
}

/// Prefixes of the `i_j`-indexed keywords: CD and PC matrices, PV
/// parameters, SIP coefficients.
pub open spec fn indexed_prefixes() -> Seq<Seq<char>> {
    seq!["CD"@, "PC"@, "PV"@, "AP_"@, "BP_"@, "A_"@, "B_"@]
}

/// What follows the first prefix in `ps` (from position `i` on) that `key`
/// starts with.
pub open spec fn strip_first(ps: Seq<Seq<char>>, key: Seq<char>, i: int) -> Option<Seq<char>>
    decreases ps.len() - i,
{
    if i < 0 || i >= ps.len() {
        None
    } else if key.len() >= ps[i].len() && key.take(ps[i].len() as int) == ps[i] {
        Some(key.skip(ps[i].len() as int))
    } else {
        strip_first(ps, key, i + 1)
    }
}

/// Non-empty and made of ASCII digits.
pub open spec fn digits(s: Seq<char>) -> bool {
    s.len() > 0 && forall|i: int| 0 <= i < s.len() ==> is_ascii_digit(#[trigger] s[i])
}

/// `i_j` with `i` and `j` non-empty runs of digits.
pub open spec fn index_pair(s: Seq<char>) -> bool {
    let u = find_first(s, '_');
    u < s.len() && digits(s.take(u as int)) && digits(s.skip(u + 1int))
}

/// Whether `key` belongs to the WCS a fresh solution replaces.
pub open spec fn wcs_key(key: Seq<char>) -> bool {
    if exact_wcs_keys().contains(key) {
        true
    } else {
        match strip_first(axis_prefixes(), key, 0) {
            Some(rest) => digits(rest),
            None => match strip_first(indexed_prefixes(), key, 0) {
                Some(rest) => index_pair(rest),
                None => false,
            },
        }
    }
}

/// The views of a list of strings.
pub open spec fn str_views(v: Seq<&str>) -> Seq<Seq<char>> {
    v.map_values(|s: &str| s@)
}

/// Whether `v[from..]` starts with `p`.
fn starts_with_at(v: &Vec<char>, p: &Vec<char>) -> (r: bool)
    ensures
        r == (v@.len() >= p@.len() && v@.take(p@.len() as int) == p@),
{
    if v.len() < p.len() {
        return false;
    }
    let mut i: usize = 0;
    while i < p.len()
        invariant
            i <= p@.len() <= v@.len(),
            forall|j: int| 0 <= j < i ==> v@[j] == p@[j],
        decreases p.len() - i,
    {
        if v[i] != p[i] {
            assert(v@.take(p@.len() as int)[i as int] != p@[i as int]);
            return false;
        }
        i = i + 1;
    }
    assert(v@.take(p@.len() as int) =~= p@);
    true
}

/// `strip_first` over string literals.
fn strip_any(key: &Vec<char>, prefixes: &[&str]) -> (r: Option<Vec<char>>)
    ensures
        match r {
            Some(rest) => strip_first(str_views(prefixes@), key@, 0) == Some(rest@),
            None => strip_first(str_views(prefixes@), key@, 0) is None,
        },
{
    let ghost ps = str_views(prefixes@);
    let mut i: usize = 0;
    while i < prefixes.len()
        invariant
            i <= prefixes@.len(),
            ps == str_views(prefixes@),
            strip_first(ps, key@, 0) == strip_first(ps, key@, i as int),
        decreases prefixes.len() - i,
    {
        let p = chars_of(prefixes[i]);
        assert(p@ == ps[i as int]);
        if starts_with_at(key, &p) {
            let rest = sub_chars(key, p.len(), key.len());
            assert(rest@ =~= key@.skip(p@.len() as int));
            return Some(rest);
        }
        i = i + 1;
    }
    None
}

/// Whether every character is an ASCII digit, and there is one.
fn all_digits_nonempty(v: &Vec<char>, from: usize, to: usize) -> (r: bool)
    requires
        from <= to <= v@.len(),
    ensures
        r == digits(v@.subrange(from as int, to as int)),
{
    if from == to {
        return false;
    }
    let mut i = from;
    while i < to
        invariant
            from <= i <= to <= v@.len(),
            forall|j: int| from <= j < i ==> is_ascii_digit(#[trigger] v@[j]),
        decreases to - i,
    {
        let c = v[i];
        if !('0' <= c && c <= '9') {
            assert(v@.subrange(from as int, to as int)[i - from] == c);
            return false;
        }
        i = i + 1;
    }
    assert forall|j: int| 0 <= j < v@.subrange(from as int, to as int).len() implies is_ascii_digit(#[trigger] v@.subrange(from as int, to as int)[j]) by {
        assert(v@.subrange(from as int, to as int)[j] == v@[from + j]);
    }
    true
}

/// Whether a FITS keyword is part of a WCS that a new solution should
/// replace rather than sit beside.
///
/// Writing a fresh solution into someone else's FITS means clearing all of
/// them, not just the ones being rewritten: a leftover CDELT/CROTA pair, a
/// PC matrix or a SIP distortion polynomial would be read alongside the new
/// CD matrix and quietly move the solution.
pub fn is_wcs_key(key: &str) -> (r: bool)
    ensures
        r == wcs_key(key@),
{
    let exact: [&str; 16] = [
        "WCSAXES", "WCSNAME", "EQUINOX", "EPOCH", "RADESYS", "RADECSYS", "LONPOLE", "LATPOLE",
        "IMAGEW", "IMAGEH", "A_ORDER", "B_ORDER", "AP_ORDER", "BP_ORDER", "A_DMAX", "B_DMAX",
    ];
    assert(str_views(exact@) =~= exact_wcs_keys());
    let mut i: usize = 0;
    while i < 16
        invariant
            i <= 16,
            str_views(exact@) == exact_wcs_keys(),
            forall|j: int| 0 <= j < i ==> exact_wcs_keys()[j] != key@,
        decreases 16 - i,
    {
        if str_eq(exact[i], key) {
            assert(exact_wcs_keys()[i as int] == key@);
            return true;
        }
        i = i + 1;
    }
    assert(!exact_wcs_keys().contains(key@));
    let kc = chars_of(key);
    let axis: [&str; 9] = ["CTYPE", "CUNIT", "CRVAL", "CRPIX", "CDELT", "CROTA", "CRDER", "CSYER", "CNAME"];
    assert(str_views(axis@) =~= axis_prefixes());
    if let Some(rest) = strip_any(&kc, &axis) {
        assert(rest@.subrange(0, rest@.len() as int) =~= rest@);
        return all_digits_nonempty(&rest, 0, rest.len());
    }
    let indexed: [&str; 7] = ["CD", "PC", "PV", "AP_", "BP_", "A_", "B_"];
    assert(str_views(indexed@) =~= indexed_prefixes());
    match strip_any(&kc, &indexed) {
        Some(rest) => {
            let u = find_char(&rest, 0, rest.len(), '_');
            proof { lemma_find_first(rest@, '_'); }
            assert(rest@.subrange(0, rest@.len() as int) =~= rest@);
            if u >= rest.len() {
                return false;
            }
            let ok = all_digits_nonempty(&rest, 0, u) && all_digits_nonempty(&rest, u + 1, rest.len());
            assert(rest@.subrange(0, u as int) =~= rest@.take(u as int));
            assert(rest@.subrange(u + 1, rest@.len() as int) =~= rest@.skip(u + 1));
            ok
        },
        None => false,
    }
}

/// The `k`-combinations of `start..n` in ascending lexicographic order, each
/// after the prefix `pre`.
pub open spec fn combos_from(n: nat, k: nat, start: nat, pre: Seq<usize>) -> Seq<Seq<usize>>
    decreases k, n - start,
{
    if k == 0 {
        seq![pre]
    } else if start >= n {
        seq![]
    } else {
        combos_from(n, (k - 1) as nat, start + 1, pre.push(start as usize)) + combos_from(n, k, start + 1, pre)
    }
}

/// Whether a combination passes the `must` filter.
pub open spec fn has_member(c: Seq<usize>, must: Option<usize>) -> bool {
    match must {
        Some(m) => c.contains(m),
        None => true,
    }
}

/// Keep the combinations that pass the filter, in order.
pub open spec fn with_member(cs: Seq<Seq<usize>>, must: Option<usize>) -> Seq<Seq<usize>>
    decreases cs.len(),
{
    if cs.len() == 0 {
        seq![]
    } else if has_member(cs[0], must) {
        seq![cs[0]] + with_member(cs.drop_first(), must)
    } else {
        with_member(cs.drop_first(), must)
    }
}

proof fn lemma_with_member_append(a: Seq<Seq<usize>>, b: Seq<Seq<usize>>, must: Option<usize>)
    ensures
        with_member(a + b, must) == with_member(a, must) + with_member(b, must),
    decreases a.len(),
{
    if a.len() == 0 {
        assert(a + b =~= b);
    } else {
        assert((a + b).drop_first() =~= a.drop_first() + b);
        lemma_with_member_append(a.drop_first(), b, must);
        if has_member(a[0], must) {
            assert(seq![a[0]] + with_member(a.drop_first(), must) + with_member(b, must) =~= seq![a[0]] + (with_member(a.drop_first(), must) + with_member(b, must)));
        }
    }
}

fn contains_usize(v: &Vec<usize>, m: usize) -> (r: bool)
    ensures
        r == v@.contains(m),
{
    let mut i: usize = 0;
    while i < v.len()
        invariant
            i <= v@.len(),
            forall|j: int| 0 <= j < i ==> v@[j] != m,
        decreases v.len() - i,
    {
        if v[i] == m {
            return true;
        }
        i = i + 1;
    }
    false
}

fn combos_rec(n: usize, k: usize, start: usize, buf: &mut Vec<usize>, must: Option<usize>, out: &mut Vec<Vec<usize>>)
    requires
        old(buf)@.len() + k <= usize::MAX,
    ensures
        final(buf)@ == old(buf)@,
        final(out)@.map_values(|c: Vec<usize>| c@) == old(out)@.map_values(|c: Vec<usize>| c@) + with_member(combos_from(n as nat, k as nat, start as nat, old(buf)@), must),
    decreases k, n - start,
{
    let ghost out0 = out@.map_values(|c: Vec<usize>| c@);
    if k == 0 {
        let keep = match must {
            Some(m) => contains_usize(buf, m),
            None => true,
        };
        let ghost cs = combos_from(n as nat, 0, start as nat, buf@);
        assert(cs =~= seq![buf@]);
        assert(cs.drop_first() =~= Seq::<Seq<usize>>::empty());
        assert(with_member(Seq::<Seq<usize>>::empty(), must) =~= Seq::<Seq<usize>>::empty());
        assert(cs[0] == buf@);
        assert(keep == has_member(buf@, must));
        if keep {
            out.push(buf.clone());
            assert(out@.map_values(|c: Vec<usize>| c@) =~= out0 + seq![buf@]);
            assert(with_member(cs, must) =~= seq![buf@]);
        } else {
            assert(with_member(cs, must) =~= Seq::<Seq<usize>>::empty());
            assert(out@.map_values(|c: Vec<usize>| c@) =~= out0);
        }
        return;
    }
    if start >= n {
        assert(out@.map_values(|c: Vec<usize>| c@) =~= out0 + with_member(seq![], must));
        return;
    }
    let ghost pre = buf@;
    buf.push(start);
    combos_rec(n, k - 1, start + 1, buf, must, out);
    buf.pop();
    assert(buf@ =~= pre);
    combos_rec(n, k, start + 1, buf, must, out);
    proof {
        lemma_with_member_append(
            combos_from(n as nat, (k - 1) as nat, (start + 1) as nat, pre.push(start)),
            combos_from(n as nat, k as nat, (start + 1) as nat, pre),
            must,
        );
    }
}

/// The `k`-combinations of `0..n` in ascending lexicographic order; with
/// `must` set, only those that contain it.
pub fn combos(n: usize, k: usize, must: Option<usize>) -> (r: Vec<Vec<usize>>)
    ensures
        r@.map_values(|c: Vec<usize>| c@) == with_member(combos_from(n as nat, k as nat, 0, seq![]), must),
{
    let mut buf: Vec<usize> = Vec::new();
    let mut out: Vec<Vec<usize>> = Vec::new();
    assert(out@.map_values(|c: Vec<usize>| c@) =~= Seq::<Seq<usize>>::empty());
    combos_rec(n, k, 0, &mut buf, must, &mut out);
    assert(buf@ =~= seq![]);
    assert(Seq::<Seq<usize>>::empty() + with_member(combos_from(n as nat, k as nat, 0, seq![]), must) =~= with_member(combos_from(n as nat, k as nat, 0, seq![]), must));
    out
}


/// Strictly ascending, with every member in `lo..hi`.
pub open spec fn ascending_within(c: Seq<usize>, lo: int, hi: int) -> bool {
    &&& forall|i: int| 0 <= i < c.len() ==> lo <= #[trigger] c[i] < hi
    &&& forall|i: int, j: int| 0 <= i < j < c.len() ==> #[trigger] c[i] < #[trigger] c[j]
}

proof fn lemma_combos_from(n: nat, k: nat, start: nat, pre: Seq<usize>)
    requires
        n <= usize::MAX,
    ensures
        forall|x: int| 0 <= x < combos_from(n, k, start, pre).len() ==> {
            let c = #[trigger] combos_from(n, k, start, pre)[x];
            &&& c.len() == pre.len() + k
            &&& c.take(pre.len() as int) == pre
            &&& ascending_within(c.skip(pre.len() as int), start as int, n as int)
        },
    decreases k, n - start,
{
    let cs = combos_from(n, k, start, pre);
    if k == 0 {
        assert forall|x: int| 0 <= x < cs.len() implies {
            let c = #[trigger] cs[x];
            &&& c.len() == pre.len() + k
            &&& c.take(pre.len() as int) == pre
            &&& ascending_within(c.skip(pre.len() as int), start as int, n as int)
        } by {
            assert(cs[x] == pre);
            assert(pre.take(pre.len() as int) =~= pre);
            assert(pre.skip(pre.len() as int) =~= Seq::<usize>::empty());
        }
    } else if start < n {
        let with = combos_from(n, (k - 1) as nat, start + 1, pre.push(start as usize));
        let without = combos_from(n, k, start + 1, pre);
        lemma_combos_from(n, (k - 1) as nat, start + 1, pre.push(start as usize));
        lemma_combos_from(n, k, start + 1, pre);
        assert forall|x: int| 0 <= x < cs.len() implies {
            let c = #[trigger] cs[x];
            &&& c.len() == pre.len() + k
            &&& c.take(pre.len() as int) == pre
            &&& ascending_within(c.skip(pre.len() as int), start as int, n as int)
        } by {
            if x < with.len() {
                let c = with[x];
                assert(cs[x] == c);
                let p2 = pre.push(start as usize);
                assert(c.take(p2.len() as int) == p2);
                assert(c.take(pre.len() as int) =~= p2.take(pre.len() as int));
                assert(p2.take(pre.len() as int) =~= pre);
                let t = c.skip(pre.len() as int);
                let t2 = c.skip(p2.len() as int);
                assert(t[0] == c[pre.len() as int]);
                assert(c[pre.len() as int] == p2[pre.len() as int]);
                assert(t.drop_first() =~= t2);
                assert forall|i: int| 0 <= i < t.len() implies start <= #[trigger] t[i] < n by {
                    if i > 0 {
                        assert(t[i] == t2[i - 1]);
                    }
                }
                assert forall|i: int, j: int| 0 <= i < j < t.len() implies #[trigger] t[i] < #[trigger] t[j] by {
                    assert(t[j] == t2[j - 1]);
                    if i > 0 {
                        assert(t[i] == t2[i - 1]);
                    }
                }
            } else {
                let c = without[x - with.len()];
                assert(cs[x] == c);
            }
        }
    }
}

proof fn lemma_with_member_from(cs: Seq<Seq<usize>>, must: Option<usize>)
    ensures
        forall|x: int| 0 <= x < with_member(cs, must).len() ==> has_member(#[trigger] with_member(cs, must)[x], must) && cs.contains(with_member(cs, must)[x]),
    decreases cs.len(),
{
    if cs.len() > 0 {
        lemma_with_member_from(cs.drop_first(), must);
        let rest = with_member(cs.drop_first(), must);
        assert forall|x: int| 0 <= x < rest.len() implies cs.contains(#[trigger] rest[x]) by {
            assert(cs.drop_first().contains(rest[x]));
            let y = choose|y: int| 0 <= y < cs.drop_first().len() && cs.drop_first()[y] == rest[x];
            assert(cs[y + 1] == rest[x]);
        }
        if has_member(cs[0], must) {
            let w = with_member(cs, must);
            assert forall|x: int| 0 <= x < w.len() implies has_member(#[trigger] w[x], must) && cs.contains(w[x]) by {
                if x == 0 {
                    assert(w[0] == cs[0]);
                } else {
                    assert(w[x] == rest[x - 1]);
                }
            }
        }
    }
}

/// Every combination `combos` yields has `k` members, in strictly
/// ascending order, each below `n`, and holds `must` when it is set.
pub proof fn lemma_combos_ascending(n: nat, k: nat, must: Option<usize>)
    requires
        n <= usize::MAX,
    ensures
        forall|x: int| 0 <= x < with_member(combos_from(n, k, 0, seq![]), must).len() ==> {
            let c = #[trigger] with_member(combos_from(n, k, 0, seq![]), must)[x];
            &&& c.len() == k
            &&& ascending_within(c, 0, n as int)
            &&& has_member(c, must)
        },
{
    let cs = combos_from(n, k, 0, seq![]);
    lemma_combos_from(n, k, 0, seq![]);
    lemma_with_member_from(cs, must);
    let w = with_member(cs, must);
    assert forall|x: int| 0 <= x < w.len() implies {
        let c = #[trigger] w[x];
        &&& c.len() == k
        &&& ascending_within(c, 0, n as int)
        &&& has_member(c, must)
    } by {
        assert(cs.contains(w[x]));
        let y = choose|y: int| 0 <= y < cs.len() && cs[y] == w[x];
        assert(w[x].skip(0) =~= w[x]);
        assert(cs[y].skip(0) =~= cs[y]);
    }
}
} // verus!
