//! HDUs: a parsed header plus the byte range of its data section, and the
//! walk over every HDU of a file.

use vstd::prelude::*;

use crate::fits::header::{header_scan, lookup, Entry, Header, ValueView};
use crate::fits::write::{block_round, lemma_block_round, round_to_block};
use crate::fits::{FitsError, FitsErrorView, BLOCK};
use crate::text::{chars_of, nat_digits, push_digits, str_eq, string_of};

verus! {

/// One HDU: parsed header plus the byte range of its data section.
#[derive(Debug)]
pub struct Hdu {
    pub header: Header,
    pub data_offset: usize,
    /// Unpadded data length in bytes (NAXIS product + PCOUNT heap).
    pub data_len: usize,
}

/// What an HDU records, as plain values.
pub struct HduView {
    pub entries: Seq<Entry>,
    pub nblocks: nat,
    pub data_offset: nat,
    pub data_len: nat,
}

impl View for Hdu {
    type V = HduView;

    open spec fn view(&self) -> HduView {
        HduView {
            entries: self.header.entries(),
            nblocks: self.header.nblocks as nat,
            data_offset: self.data_offset as nat,
            data_len: self.data_len as nat,
        }
    }
}

/// The integer recorded under `key`, or `default` when there is none.
pub open spec fn int_card(entries: Seq<Entry>, key: Seq<char>, default: int) -> int {
    match lookup(entries, key) {
        Some(ValueView::Int(i)) => i as int,
        _ => default,
    }
}

/// The string recorded under `key`, if any.
pub open spec fn str_card(entries: Seq<Entry>, key: Seq<char>) -> Option<Seq<char>> {
    match lookup(entries, key) {
        Some(ValueView::Str(s)) => Some(s),
        _ => None,
    }
}

/// `v`, raised to `lo` if below it.
pub open spec fn at_least(v: int, lo: int) -> int {
    if v < lo {
        lo
    } else {
        v
    }
}

/// `|v|`
pub open spec fn abs(v: int) -> int {
    if v < 0 {
        -v
    } else {
        v
    }
}

/// The keyword of axis `i`: `NAXIS1`, `NAXIS2`, ...
pub open spec fn axis_key(i: nat) -> Seq<char> {
    "NAXIS"@ + nat_digits(i)
}

/// `a * b`, saturating at `usize::MAX`.
pub open spec fn sat_mul(a: int, b: int) -> int {
    if a * b > usize::MAX {
        usize::MAX as int
    } else {
        a * b
    }
}

/// Product of the first `n` axis lengths (missing or negative ones count as
/// 0), saturating at `usize::MAX`.
pub open spec fn axes_product(entries: Seq<Entry>, n: nat) -> int
    decreases n,
{
    if n == 0 {
        1
    } else {
        sat_mul(axes_product(entries, (n - 1) as nat), at_least(int_card(entries, axis_key(n), 0), 0))
    }
}

/// Number of data elements: the product of the NAXISn, none when NAXIS is 0.
pub open spec fn element_count(entries: Seq<Entry>) -> int {
    let naxis = at_least(int_card(entries, "NAXIS"@, 0), 0);
    if naxis > 0 {
        axes_product(entries, naxis as nat)
    } else {
        0
    }
}

/// Unpadded data bytes: |BITPIX|/8 × max(GCOUNT, 1) × (elements + max(PCOUNT, 0)),
/// BITPIX 8 and GCOUNT 1 when absent.
pub open spec fn data_bytes(entries: Seq<Entry>) -> int {
    let bitpix = abs(int_card(entries, "BITPIX"@, 8));
    let pcount = at_least(int_card(entries, "PCOUNT"@, 0), 0);
    let gcount = at_least(int_card(entries, "GCOUNT"@, 1), 1);
    (bitpix / 8) * gcount * (element_count(entries) + pcount)
}

/// `SIMPLE  =`, the first bytes of every FITS file.
pub open spec fn simple_magic() -> Seq<u8> {
    seq![0x53u8, 0x49u8, 0x4Du8, 0x50u8, 0x4Cu8, 0x45u8, 0x20u8, 0x20u8, 0x3Du8]
}

/// The HDUs from byte `off` on, appended to `acc`.
pub open spec fn hdu_scan(buf: Seq<u8>, off: int, acc: Seq<HduView>) -> Result<Seq<HduView>, FitsErrorView>
    decreases buf.len() - off,
{
    if off < 0 || off >= buf.len() {
        Ok(acc)
    } else {
        match header_scan(buf, off, off, seq![]) {
            Err(e) => Err(e),
            Ok((entries, end)) => {
                let dl = data_bytes(entries);
                if end + dl > buf.len() {
                    Err(FitsErrorView::Truncated(end as usize))
                } else {
                    let h = HduView {
                        entries,
                        nblocks: ((end - off) / (BLOCK as int)) as nat,
                        data_offset: end as nat,
                        data_len: dl as nat,
                    };
                    let next = end + block_round(dl as nat);
                    if next <= off || next >= buf.len() {
                        Ok(acc.push(h))
                    } else {
                        hdu_scan(buf, next, acc.push(h))
                    }
                }
            },
        }
    }
}

/// Where an HDU sits in a buffer of `len` bytes: a header of at least one
/// block ending at its data, and data that ends inside the buffer.
pub open spec fn placed(h: HduView, len: nat) -> bool {
    &&& h.nblocks >= 1
    &&& h.nblocks * BLOCK <= h.data_offset
    &&& h.data_offset + h.data_len <= len
}

/// Every HDU of a FITS file, or why there are none.
pub open spec fn fits_spec(buf: Seq<u8>) -> Result<Seq<HduView>, FitsErrorView> {
    if buf.len() < BLOCK || buf.take(9) != simple_magic() {
        Err(FitsErrorView::NotFits)
    } else {
        hdu_scan(buf, 0, seq![])
    }
}

/// The name of an HDU: EXTNAME if present, else TTYPE1.
pub open spec fn hdu_name(entries: Seq<Entry>) -> Option<Seq<char>> {
    match str_card(entries, "EXTNAME"@) {
        Some(n) => Some(n),
        None => str_card(entries, "TTYPE1"@),
    }
}

/// `v` as a size, capped at `usize::MAX` (a cap only on targets where
/// `usize` is narrower than 64 bits).
pub open spec fn capped(v: int) -> int {
    if v > usize::MAX {
        usize::MAX as int
    } else {
        v
    }
}

/// `NAXISi` as a string.
fn axis_key_string(i: u64) -> (s: String)
    ensures
        s@ == axis_key(i as nat),
{
    let mut v = chars_of("NAXIS");
    push_digits(i, &mut v);
    string_of(v)
}

/// A non-negative count read from a card, as a size.
fn size_of_count(v: i64) -> (r: usize)
    ensures
        r == capped(at_least(v as int, 0)),
{
    if v < 0 {
        0
    } else if v as u64 > usize::MAX as u64 {
        usize::MAX
    } else {
        v as usize
    }
}

/// The value of an integer card, or `default`.
fn int_or(h: &Header, key: &str, default: i64) -> (r: i64)
    ensures
        r == int_card(h.entries(), key@, default as int),
{
    match h.get_i64(key) {
        Some(v) => v,
        None => default,
    }
}

/// `|v|` as an unsigned value.
fn unsigned_abs(v: i64) -> (r: u64)
    ensures
        r == abs(v as int),
{
    if v < 0 {
        ((-(v + 1)) as u64) + 1
    } else {
        v as u64
    }
}

/// `a * b`, saturating.
fn saturating_mul(a: usize, b: usize) -> (r: usize)
    ensures
        r == sat_mul(a as int, b as int),
{
    match a.checked_mul(b) {
        Some(p) => p,
        None => usize::MAX,
    }
}

/// The data size a header declares, if it fits in a `usize`.
fn declared_data_len(h: &Header) -> (r: Option<usize>)
    ensures
        data_bytes(h.entries()) >= 0,
        match r {
            Some(n) => n == data_bytes(h.entries()),
            None => data_bytes(h.entries()) > usize::MAX,
        },
{
    let ghost e = h.entries();
    let bitpix = unsigned_abs(int_or(h, "BITPIX", 8));
    let naxis_raw = int_or(h, "NAXIS", 0);
    let naxis: u64 = if naxis_raw < 0 { 0 } else { naxis_raw as u64 };
    let mut nelem: usize = if naxis > 0 { 1 } else { 0 };
    let mut i: u64 = 0;
    while i < naxis
        invariant
            i <= naxis,
            naxis == at_least(int_card(e, "NAXIS"@, 0), 0),
            e == h.entries(),
            naxis > 0 ==> nelem == axes_product(e, i as nat),
            naxis == 0 ==> nelem == 0,
        decreases naxis - i,
    {
        i = i + 1;
        let key = axis_key_string(i);
        let d = size_of_count(int_or(h, key.as_str(), 0));
        let ghost raw = at_least(int_card(e, axis_key(i as nat), 0), 0);
        let ghost before = nelem;
        nelem = saturating_mul(nelem, d);
        proof {
            if raw > usize::MAX {
                if before >= 1 {
                    assert(before * raw >= raw) by (nonlinear_arith)
                        requires before >= 1, raw >= 0;
                    assert(before * (d as int) >= d) by (nonlinear_arith)
                        requires before >= 1, d >= 0;
                } else {
                    assert(before * raw == 0) by (nonlinear_arith)
                        requires before == 0;
                    assert(before * (d as int) == 0) by (nonlinear_arith)
                        requires before == 0;
                }
                assert(sat_mul(before as int, raw) == sat_mul(before as int, d as int));
            }
            if naxis > 0 {
                assert(axes_product(e, i as nat) == sat_mul(axes_product(e, (i - 1) as nat), raw));
            }
        }
    }
    assert(nelem == element_count(e));
    let p_raw = int_or(h, "PCOUNT", 0);
    let g_raw = int_or(h, "GCOUNT", 1);
    let ghost pcount: int = at_least(p_raw as int, 0);
    let ghost gcount: int = at_least(g_raw as int, 1);
    let per: u64 = bitpix / 8;
    let ghost total = (per as int) * gcount * ((nelem as int) + pcount);
    assert(total == data_bytes(e));
    assert(total >= 0) by (nonlinear_arith)
        requires
            total == (per as int) * gcount * ((nelem as int) + pcount),
            per >= 0,
            gcount >= 1,
            nelem >= 0,
            pcount >= 0,
    ;
    if per == 0 || (nelem == 0 && p_raw <= 0) {
        assert(total == 0) by (nonlinear_arith)
            requires
                total == (per as int) * gcount * ((nelem as int) + pcount),
                per == 0 || (nelem as int) + pcount == 0,
        ;
        return Some(0);
    }
    assert(total >= (per as int) * gcount && total >= (nelem as int) + pcount && total >= gcount) by (nonlinear_arith)
        requires
            total == (per as int) * gcount * ((nelem as int) + pcount),
            per >= 1,
            gcount >= 1,
            (nelem as int) + pcount >= 1,
    ;
    if p_raw as i128 > usize::MAX as i128 || g_raw as i128 > usize::MAX as i128 || per as u128 > usize::MAX as u128 {
        assert(total >= per) by (nonlinear_arith)
            requires
                total >= (per as int) * gcount,
                gcount >= 1,
                per >= 0,
        ;
        return None;
    }
    let pcount_u: usize = if p_raw < 0 { 0 } else { p_raw as usize };
    let gcount_u: usize = if g_raw < 1 { 1 } else { g_raw as usize };
    let per_u: usize = per as usize;
    let sum = match nelem.checked_add(pcount_u) {
        Some(s) => s,
        None => return None,
    };
    let pg = match per_u.checked_mul(gcount_u) {
        Some(x) => x,
        None => return None,
    };
    match pg.checked_mul(sum) {
        Some(n) => Some(n),
        None => None,
    }
}

impl Hdu {
    /// Byte offset of this HDU's first header card.
    pub fn header_offset(&self) -> (r: usize)
        requires
            self.header.nblocks * BLOCK <= self.data_offset,
        ensures
            r == self.data_offset - self.header.nblocks * BLOCK,
    {
        self.data_offset - self.header.nblocks * BLOCK
    }

    /// For BINTABLE HDUs: (row_bytes, nrows), from NAXIS1 and NAXIS2.
    pub fn table_shape(&self) -> (r: (usize, usize))
        ensures
            r.0 == capped(at_least(int_card(self.header.entries(), "NAXIS1"@, 0), 0)),
            r.1 == capped(at_least(int_card(self.header.entries(), "NAXIS2"@, 0), 0)),
    {
        let w = size_of_count(int_or(&self.header, "NAXIS1", 0));
        let h = size_of_count(int_or(&self.header, "NAXIS2", 0));
        (w, h)
    }

    /// Name identifying this HDU: EXTNAME if present, else TTYPE1 (the
    /// convention astrometry.net index files use for their single-column
    /// tables).
    pub fn name(&self) -> (r: Option<&str>)
        ensures
            match r {
                Some(s) => hdu_name(self.header.entries()) == Some(s@),
                None => hdu_name(self.header.entries()) is None,
            },
    {
        match self.header.get_str("EXTNAME") {
            Some(n) => Some(n),
            None => self.header.get_str("TTYPE1"),
        }
    }
}

/// All HDUs of a FITS file, described by offsets into the caller's buffer.
#[derive(Debug)]
pub struct Fits {
    pub hdus: Vec<Hdu>,
}

/// The views of `hdus`.
pub open spec fn views_of(hdus: Seq<Hdu>) -> Seq<HduView> {
    hdus.map_values(|h: Hdu| h@)
}

/// The index of the first HDU named `name` at or after `from`.
pub open spec fn first_named(hdus: Seq<HduView>, name: Seq<char>, from: int) -> int
    decreases hdus.len() - from,
{
    if from < 0 || from >= hdus.len() {
        hdus.len() as int
    } else if hdu_name(hdus[from].entries) == Some(name) {
        from
    } else {
        first_named(hdus, name, from + 1)
    }
}

/// `first_named` is an index at or after `from`, or the length.
pub proof fn lemma_first_named(hdus: Seq<HduView>, name: Seq<char>, from: int)
    requires
        0 <= from,
    ensures
        from <= first_named(hdus, name, from) <= hdus.len() || (from > hdus.len() && first_named(hdus, name, from) == hdus.len()),
        first_named(hdus, name, from) >= 0,
    decreases hdus.len() - from,
{
    if from < hdus.len() && hdu_name(hdus[from].entries) != Some(name) {
        lemma_first_named(hdus, name, from + 1);
    }
}

impl Fits {
    /// The HDUs as plain values.
    pub open spec fn views(&self) -> Seq<HduView> {
        views_of(self.hdus@)
    }

    /// Read every HDU of `buf`: each header, where its data starts and how
    /// long it is. The walk ends at the end of the buffer.
    pub fn parse(buf: &[u8]) -> (r: Result<Fits, FitsError>)
        ensures
            match r {
                Ok(f) => {
                    &&& fits_spec(buf@) == Ok::<Seq<HduView>, FitsErrorView>(f.views())
                    &&& f.hdus@.len() > 0
                    &&& forall|i: int| 0 <= i < f.hdus@.len() ==> placed(#[trigger] f.views()[i], buf@.len())
                },
                Err(e) => fits_spec(buf@) == Err::<Seq<HduView>, FitsErrorView>(e@),
            },
    {
        if buf.len() < BLOCK || !starts_with_simple(buf) {
            return Err(FitsError::NotFits);
        }
        let mut hdus: Vec<Hdu> = Vec::new();
        let mut off: usize = 0;
        assert(views_of(hdus@) =~= seq![]);
        while off < buf.len()
            invariant
                fits_spec(buf@) == hdu_scan(buf@, off as int, views_of(hdus@)),
                buf@.len() >= BLOCK,
                buf@.take(9) == simple_magic(),
                off > 0 ==> hdus@.len() > 0,
                forall|i: int| 0 <= i < hdus@.len() ==> placed(#[trigger] views_of(hdus@)[i], buf@.len()),
            decreases buf@.len() - off,
        {
            let ghost acc = views_of(hdus@);
            let (header, data_offset) = match Header::parse(buf, off) {
                Ok(p) => p,
                Err(e) => return Err(e),
            };
            let ghost entries = header.entries();
            let dl = match declared_data_len(&header) {
                Some(n) => n,
                None => return Err(FitsError::Truncated(data_offset)),
            };
            if dl > buf.len() - data_offset {
                return Err(FitsError::Truncated(data_offset));
            }
            proof { lemma_block_round(dl as nat); }
            let padded = round_to_block(dl);
            let nb = header.nblocks;
            assert((data_offset - off) / (BLOCK as int) == nb as int) by (nonlinear_arith)
                requires
                    data_offset == off + nb * BLOCK,
                    BLOCK == 2880,
            ;
            let hdu = Hdu { header, data_offset, data_len: dl };
            hdus.push(hdu);
            assert(views_of(hdus@) =~= acc.push(hdu@));
            assert(placed(hdu@, buf@.len()));
            match data_offset.checked_add(padded) {
                Some(next) => {
                    if next >= buf.len() {
                        return Ok(Fits { hdus });
                    }
                    off = next;
                },
                None => {
                    return Ok(Fits { hdus });
                },
            }
        }
        Ok(Fits { hdus })
    }

    /// Find an HDU by EXTNAME/TTYPE1.
    pub fn find(&self, name: &str) -> (r: Option<&Hdu>)
        ensures
            match r {
                Some(h) => {
                    let i = first_named(self.views(), name@, 0);
                    &&& 0 <= i < self.hdus@.len()
                    &&& *h == self.hdus@[i]
                    &&& h@ == self.views()[i]
                },
                None => first_named(self.views(), name@, 0) == self.hdus@.len(),
            },
    {
        let mut i: usize = 0;
        while i < self.hdus.len()
            invariant
                i <= self.hdus@.len(),
                first_named(self.views(), name@, 0) == first_named(self.views(), name@, i as int),
            decreases self.hdus.len() - i,
        {
            let hit = match self.hdus[i].name() {
                Some(n) => str_eq(n, name),
                None => false,
            };
            if hit {
                return Some(&self.hdus[i]);
            }
            i = i + 1;
        }
        None
    }
}

/// Whether `buf` opens with `SIMPLE  =`.
fn starts_with_simple(buf: &[u8]) -> (r: bool)
    requires
        buf@.len() >= 9,
    ensures
        r == (buf@.take(9) == simple_magic()),
{
    let magic: [u8; 9] = [0x53u8, 0x49u8, 0x4Du8, 0x50u8, 0x4Cu8, 0x45u8, 0x20u8, 0x20u8, 0x3Du8];
    assert(magic@ =~= simple_magic());
    let mut i: usize = 0;
    while i < 9
        invariant
            i <= 9,
            magic@ == simple_magic(),
            buf@.len() >= 9,
            forall|j: int| 0 <= j < i ==> buf@[j] == magic@[j],
        decreases 9 - i,
    {
        if buf[i] != magic[i] {
            assert(buf@.take(9)[i as int] != simple_magic()[i as int]);
            return false;
        }
        i = i + 1;
    }
    assert(buf@.take(9) =~= simple_magic());
    true
}

} // verus!
