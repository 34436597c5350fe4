//! libkd kd-tree layout: where each array of a serialized tree lies, and
//! the integer reads the search walks with.
//!
//! Serialized layout (per tree `<name>`):
//! - `kdtree_header_<name>`: empty table whose header carries
//!   KDT_NDAT / KDT_NDIM / KDT_NNOD / KDT_INT / KDT_DATA / KDT_LINL / ENDIAN.
//! - `kdtree_lr_<name>`: u32 per leaf — index of the rightmost data point
//!   owned by that leaf (absent when KDT_LINL=T: leaf ranges are implicit).
//! - `kdtree_split_<name>`: split plane per interior node. When there is no
//!   `kdtree_splitdim_<name>` array, the split dimension is packed into the
//!   low `ceil(log2(ndim))` bits of the split value.
//! - `kdtree_range_<name>`: f64 mins[ndim], maxs[ndim], scale — the packing
//!   transform: packed = (x - min[dim]) * scale.
//! - `kdtree_data_<name>`: ndata x ndim packed points.
//!
//! The tree is an implicit complete binary tree: children of node n are
//! 2n+1 / 2n+2; the last `nbottom` nodes are leaves; data is stored permuted
//! in tree order so each leaf owns a contiguous range.

use vstd::prelude::*;

use crate::fits::header::{lookup, Entry, ValueView};
use crate::fits::hdu::{capped, first_named, int_card, str_card, at_least, Fits, HduView, placed};
use crate::fits::{FitsError, FitsErrorView};
use crate::index::IndexError;
use crate::text::{chars_of, debug_quoted, nat_digits, push_size, push_str, quoted, str_eq, string_of};

verus! {

/// The element type of a serialized array.
#[derive(Debug, Clone, Copy, PartialEq, Eq)]
pub enum PackedType {
    U16,
    U32,
    F32,
    F64,
}

/// Bytes per element.
pub open spec fn type_size(t: PackedType) -> nat {
    match t {
        PackedType::U16 => 2,
        PackedType::U32 => 4,
        PackedType::F32 => 4,
        PackedType::F64 => 8,
    }
}

/// The type libkd writes as `s` in KDT_INT / KDT_DATA.
pub open spec fn type_named(s: Seq<char>) -> Option<PackedType> {
    if s == "u16"@ {
        Some(PackedType::U16)
    } else if s == "u32"@ {
        Some(PackedType::U32)
    } else if s == "float"@ {
        Some(PackedType::F32)
    } else if s == "double"@ {
        Some(PackedType::F64)
    } else {
        None
    }
}

/// Integer element types.
pub open spec fn int_type(t: PackedType) -> bool {
    t is U16 || t is U32
}

/// What an `IndexError` holds.
pub enum IndexErrorView {
    Fits(FitsErrorView),
    Io,
    Format(Seq<char>),
}

impl View for IndexError {
    type V = IndexErrorView;

    open spec fn view(&self) -> IndexErrorView {
        match self {
            IndexError::Fits(e) => IndexErrorView::Fits(e@),
            IndexError::Io(_) => IndexErrorView::Io,
            IndexError::Format(m) => IndexErrorView::Format(m@),
        }
    }
}

impl PackedType {
    pub fn size(self) -> (r: usize)
        ensures
            r == type_size(self),
    {
        match self {
            PackedType::U16 => 2,
            PackedType::U32 | PackedType::F32 => 4,
            PackedType::F64 => 8,
        }
    }

    /// The type named `s` by KDT_INT / KDT_DATA.
    pub fn from_kdt(s: &str) -> (r: Result<PackedType, IndexError>)
        ensures
            match type_named(s@) {
                Some(t) => r == Ok::<PackedType, IndexError>(t),
                None => r matches Err(e) && e@ == IndexErrorView::Format("unsupported kd type "@ + debug_quoted(s@)),
            },
    {
        if str_eq(s, "u16") {
            Ok(PackedType::U16)
        } else if str_eq(s, "u32") {
            Ok(PackedType::U32)
        } else if str_eq(s, "float") {
            Ok(PackedType::F32)
        } else if str_eq(s, "double") {
            Ok(PackedType::F64)
        } else {
            let mut m = chars_of("unsupported kd type ");
            let q = quoted(s);
            push_str(q.as_str(), &mut m);
            Err(IndexError::Format(string_of(m)))
        }
    }

    pub fn is_int(self) -> (r: bool)
        ensures
            r == int_type(self),
    {
        match self {
            PackedType::U16 | PackedType::U32 => true,
            _ => false,
        }
    }
}

/// A 16-bit unsigned integer at `o`, big- or little-endian.
pub open spec fn u16_at(b: Seq<u8>, o: int, big: bool) -> nat {
    if big {
        (b[o] * 256 + b[o + 1]) as nat
    } else {
        (b[o + 1] * 256 + b[o]) as nat
    }
}

/// A 32-bit unsigned integer at `o`, big- or little-endian.
pub open spec fn u32_at(b: Seq<u8>, o: int, big: bool) -> nat {
    if big {
        (((b[o] * 256 + b[o + 1]) * 256 + b[o + 2]) * 256 + b[o + 3]) as nat
    } else {
        (((b[o + 3] * 256 + b[o + 2]) * 256 + b[o + 1]) * 256 + b[o]) as nat
    }
}

/// Reference to a typed array inside the file's bytes.
#[derive(Debug, Clone, Copy)]
pub struct ArrRef {
    pub off: usize,
    pub ty: PackedType,
}

/// Element `idx` of an integer array, read big-endian when `swap`.
pub open spec fn int_at(base: Seq<u8>, arr: ArrRef, idx: int, swap: bool) -> nat {
    let o = arr.off + idx * type_size(arr.ty);
    match arr.ty {
        PackedType::U16 => u16_at(base, o, swap),
        PackedType::U32 => u32_at(base, o, swap),
        _ => 0,
    }
}

impl ArrRef {
    /// Raw integer value (for split-dim masking and lr entries).
    pub fn get_int(&self, base: &[u8], idx: usize, swap: bool) -> (r: u64)
        requires
            int_type(self.ty),
            self.off + (idx + 1) * type_size(self.ty) <= base@.len(),
        ensures
            r == int_at(base@, *self, idx as int, swap),
    {
        let sz = self.ty.size();
        let n = base.len();
        proof {
            assert(idx * sz + sz == (idx + 1) * sz) by (nonlinear_arith);
        }
        let o = self.off + idx * sz;
        match self.ty {
            PackedType::U16 => {
                let b0 = base[o] as u64;
                let b1 = base[o + 1] as u64;
                if swap {
                    b0 * 256 + b1
                } else {
                    b1 * 256 + b0
                }
            },
            _ => {
                let b0 = base[o] as u64;
                let b1 = base[o + 1] as u64;
                let b2 = base[o + 2] as u64;
                let b3 = base[o + 3] as u64;
                if swap {
                    ((b0 * 256 + b1) * 256 + b2) * 256 + b3
                } else {
                    ((b3 * 256 + b2) * 256 + b1) * 256 + b0
                }
            },
        }
    }
}


/// The integer recorded under `key`, or the error `req_i64` gives.
pub open spec fn required(e: Seq<Entry>, key: Seq<char>) -> Result<i64, IndexErrorView> {
    match lookup(e, key) {
        Some(ValueView::Int(i)) => Ok(i),
        _ => Err(IndexErrorView::Fits(FitsErrorView::MissingCard(key))),
    }
}

/// The string recorded under `key`, or `default`.
pub open spec fn str_or(e: Seq<Entry>, key: Seq<char>, default: Seq<char>) -> Seq<char> {
    match str_card(e, key) {
        Some(s) => s,
        None => default,
    }
}

/// The boolean recorded under `key`, or `default`.
pub open spec fn bool_or(e: Seq<Entry>, key: Seq<char>, default: bool) -> bool {
    match lookup(e, key) {
        Some(ValueView::Bool(b)) => b,
        _ => default,
    }
}

/// `n` is a power of two.
pub open spec fn pow2(n: nat) -> bool
    decreases n,
{
    if n == 1 {
        true
    } else if n >= 2 && n % 2 == 0 {
        pow2(n / 2)
    } else {
        false
    }
}

/// The HDU of array `suffix` of tree `name`.
pub open spec fn table_key(suffix: Seq<char>, name: Seq<char>) -> Seq<char> {
    "kdtree_"@ + suffix + "_"@ + name
}

/// Where a table's data starts, its row width and its row count.
pub open spec fn table_of(hdus: Seq<HduView>, key: Seq<char>) -> Option<(nat, nat, nat)> {
    let i = first_named(hdus, key, 0);
    if 0 <= i < hdus.len() {
        let e = hdus[i].entries;
        Some((
            hdus[i].data_offset,
            capped(at_least(int_card(e, "NAXIS1"@, 0), 0)) as nat,
            capped(at_least(int_card(e, "NAXIS2"@, 0), 0)) as nat,
        ))
    } else {
        None
    }
}

/// `tree <name>: `
pub open spec fn tree_msg(name: Seq<char>, rest: Seq<char>) -> Seq<char> {
    "tree "@ + name + ": "@ + rest
}

/// `<a>x<b>`
pub open spec fn dims(a: nat, b: nat) -> Seq<char> {
    nat_digits(a) + "x"@ + nat_digits(b)
}

/// Bits of a split value that hold the split dimension.
pub open spec fn dim_bits(ndim: nat) -> nat {
    if ndim <= 1 {
        0
    } else if ndim <= 2 {
        1
    } else if ndim <= 4 {
        2
    } else {
        3
    }
}

/// What a parsed tree records, as plain values.
pub struct KdLayout {
    pub ndim: nat,
    pub ndata: nat,
    pub nnodes: nat,
    pub nbottom: nat,
    pub ninterior: nat,
    pub data: ArrRef,
    pub split: Option<ArrRef>,
    pub splitdim: Option<nat>,
    pub lr: Option<nat>,
    pub perm: Option<nat>,
    pub linear_lr: bool,
    pub range: Option<nat>,
    pub dim_mask: nat,
}

/// The array tables of tree `name`, once its header is read and its shape
/// checked.
pub open spec fn kd_tables(
    hdus: Seq<HduView>,
    name: Seq<char>,
    ndata: nat,
    ndim: nat,
    nnodes: nat,
    int_ty: PackedType,
    data_ty: PackedType,
    linear_lr: bool,
) -> Result<KdLayout, IndexErrorView> {
    let nbottom = (nnodes + 1) / 2;
    let ninterior = (nnodes - nbottom) as nat;
    match table_of(hdus, table_key("data"@, name)) {
        None => Err(IndexErrorView::Format(tree_msg(name, "missing data table"@))),
        Some((doff, dw, dn)) => if dn != ndata || dw != ndim * type_size(data_ty) {
            Err(IndexErrorView::Format(tree_msg(name, "data table "@ + dims(dw, dn) + ", expected "@ + dims(ndim * type_size(data_ty), ndata))))
        } else {
            let range = table_of(hdus, table_key("range"@, name));
            if range matches Some((roff, rw, rn)) && (rw != 8 || rn < 2 * ndim + 1) {
                Err(IndexErrorView::Format(tree_msg(name, "bad range table "@ + dims(range.unwrap().1, range.unwrap().2))))
            } else if range is None && int_type(data_ty) {
                Err(IndexErrorView::Format(tree_msg(name, "packed data but no range table"@)))
            } else {
                let split = table_of(hdus, table_key("split"@, name));
                if split matches Some((soff, sw, sn)) && (sn != ninterior || sw != type_size(int_ty)) {
                    Err(IndexErrorView::Format(tree_msg(name, "split table "@ + dims(split.unwrap().1, split.unwrap().2) + ", expected "@ + dims(type_size(int_ty), ninterior))))
                } else {
                    let splitdim = table_of(hdus, table_key("splitdim"@, name));
                    let lr = table_of(hdus, table_key("lr"@, name));
                    if lr matches Some((loff, lw, ln)) && (ln != nbottom || lw != 4) {
                        Err(IndexErrorView::Format(tree_msg(name, "lr table "@ + dims(lr.unwrap().1, lr.unwrap().2) + ", expected 4x"@ + nat_digits(nbottom))))
                    } else if lr is None && !linear_lr {
                        Err(IndexErrorView::Format(tree_msg(name, "no lr table and not linear_lr"@)))
                    } else {
                        let perm = table_of(hdus, table_key("perm"@, name));
                        if perm matches Some((poff, pw, pn)) && (pn != ndata || pw != 4) {
                            Err(IndexErrorView::Format(tree_msg(name, "bad perm table"@)))
                        } else {
                            let bits = if splitdim is Some { 0 } else { dim_bits(ndim) };
                            Ok(KdLayout {
                                ndim,
                                ndata,
                                nnodes,
                                nbottom,
                                ninterior,
                                data: ArrRef { off: doff as usize, ty: data_ty },
                                split: match split {
                                    Some((soff, _, _)) => Some(ArrRef { off: soff as usize, ty: int_ty }),
                                    None => None,
                                },
                                splitdim: match splitdim {
                                    Some((o, _, _)) => Some(o),
                                    None => None,
                                },
                                lr: match lr {
                                    Some((o, _, _)) => Some(o),
                                    None => None,
                                },
                                perm: match perm {
                                    Some((o, _, _)) => Some(o),
                                    None => None,
                                },
                                linear_lr,
                                range: match range {
                                    Some((o, _, _)) => Some(o),
                                    None => None,
                                },
                                dim_mask: (pow2_of(bits) - 1) as nat,
                            })
                        }
                    }
                }
            }
        }
    }
}

/// `2^b`.
pub open spec fn pow2_of(b: nat) -> nat
    decreases b,
{
    if b == 0 {
        1
    } else {
        2 * pow2_of((b - 1) as nat)
    }
}

/// The values the header HDU of a tree declares.
pub struct KdHeaderView {
    pub ndata: nat,
    pub ndim: nat,
    pub nnodes: nat,
    pub int_ty: PackedType,
    pub data_ty: PackedType,
    pub linear_lr: bool,
}

/// The header HDU of tree `name`.
pub open spec fn header_key(name: Seq<char>) -> Seq<char> {
    "kdtree_header_"@ + name
}

/// What the header HDU of tree `name` declares.
pub open spec fn kd_header_spec(hdus: Seq<HduView>, name: Seq<char>) -> Result<KdHeaderView, IndexErrorView> {
    let hi = first_named(hdus, header_key(name), 0);
    if !(0 <= hi < hdus.len()) {
        Err(IndexErrorView::Format("missing HDU "@ + header_key(name)))
    } else {
        let e = hdus[hi].entries;
        match (required(e, "KDT_NDAT"@), required(e, "KDT_NDIM"@), required(e, "KDT_NNOD"@)) {
            (Err(x), _, _) => Err(x),
            (Ok(_), Err(x), _) => Err(x),
            (Ok(_), Ok(_), Err(x)) => Err(x),
            (Ok(nd), Ok(dm), Ok(nn)) => {
                let int_name = str_or(e, "KDT_INT"@, "u32"@);
                let data_name = str_or(e, "KDT_DATA"@, "u32"@);
                match (type_named(int_name), type_named(data_name)) {
                    (None, _) => Err(IndexErrorView::Format("unsupported kd type "@ + debug_quoted(int_name))),
                    (Some(_), None) => Err(IndexErrorView::Format("unsupported kd type "@ + debug_quoted(data_name))),
                    (Some(int_ty), Some(data_ty)) => Ok(KdHeaderView {
                        ndata: (nd as usize) as nat,
                        ndim: (dm as usize) as nat,
                        nnodes: (nn as usize) as nat,
                        int_ty,
                        data_ty,
                        linear_lr: bool_or(e, "KDT_LINL"@, false),
                    }),
                }
            },
        }
    }
}

/// Tree `name` as `KdTree::parse` reads it from the HDUs of its file.
pub open spec fn kd_parse_spec(hdus: Seq<HduView>, name: Seq<char>) -> Result<KdLayout, IndexErrorView> {
    match kd_header_spec(hdus, name) {
        Err(x) => Err(x),
        Ok(h) => {
            let nbottom = (h.nnodes + 1) / 2;
            if !pow2(nbottom) || h.nnodes != 2 * nbottom - 1 {
                Err(IndexErrorView::Format(tree_msg(name, "unsupported shape nnodes="@ + nat_digits(h.nnodes))))
            } else if h.ndim == 0 || h.ndim > 8 {
                Err(IndexErrorView::Format(tree_msg(name, "ndim="@ + nat_digits(h.ndim))))
            } else {
                kd_tables(hdus, name, h.ndata, h.ndim, h.nnodes, h.int_ty, h.data_ty, h.linear_lr)
            }
        },
    }
}

/// Whether the file's byte order (declared by the ENDIAN card, which holds
/// the u32 0x01020304 in file byte order) is little-endian. Missing or
/// unknown counts as little-endian: every index published by
/// astrometry.net was written on x86.
pub open spec fn file_little_endian(card: Option<Seq<char>>) -> bool {
    match card {
        Some(s) => s != "01:02:03:04"@,
        None => true,
    }
}

/// A possible layout of 1u16 in memory: little- or big-endian.
pub open spec fn native_order(native: Seq<u8>) -> bool {
    native == seq![1u8, 0u8] || native == seq![0u8, 1u8]
}

/// How the number 1 as a `u16` is laid out in this machine's memory.
///
/// Trusted: calls `u16::to_ne_bytes`, whose result is the native byte
/// order of the value; the contract claims only that it is one of the two.
#[verifier::external_body]
fn native_one() -> (r: [u8; 2])
    ensures
        native_order(r@),
{
    1u16.to_ne_bytes()
}

/// Whether arrays in a file with this ENDIAN card must be read with their
/// bytes swapped on a machine that lays out 1u16 as `native`.
pub fn swap_needed(card: Option<&str>, native: [u8; 2]) -> (r: bool)
    ensures
        r == (file_little_endian(match card { Some(s) => Some(s@), None => None }) != (native@[0] == 1u8)),
{
    let file_le = match card {
        Some(s) => !str_eq(s, "01:02:03:04"),
        None => true,
    };
    file_le != (native[0] == 1u8)
}

/// Whether the file's byte order differs from the host's.
pub fn endian_swap(card: Option<&str>) -> (r: bool)
    ensures
        exists|native: Seq<u8>| #[trigger] native_order(native)
            && r == (file_little_endian(match card { Some(s) => Some(s@), None => None }) != (native[0] == 1u8)),
{
    let native = native_one();
    swap_needed(card, native)
}

/// A kd-tree's layout inside its file.
#[derive(Debug)]
pub struct KdTree {
    pub name: String,
    pub ndim: usize,
    pub ndata: usize,
    pub nnodes: usize,
    pub nbottom: usize,
    pub ninterior: usize,
    pub data: ArrRef,
    pub split: Option<ArrRef>,
    /// u8 per interior node.
    pub splitdim: Option<usize>,
    /// u32 per leaf.
    pub lr: Option<usize>,
    /// u32 per data point.
    pub perm: Option<usize>,
    pub linear_lr: bool,
    /// Where the packing transform is stored: f64 mins[ndim], maxs[ndim],
    /// scale.
    pub range: Option<usize>,
    pub dim_mask: u64,
    pub swap: bool,
}

/// `prefix` followed by `name`, as a string.
fn key_for(prefix: &str, name: &str) -> (r: String)
    ensures
        r@ == prefix@ + name@,
{
    let mut v = chars_of(prefix);
    push_str(name, &mut v);
    string_of(v)
}

/// `tree <name>: ` followed by `rest`, as characters.
fn tree_prefix(name: &str) -> (r: Vec<char>)
    ensures
        r@ == tree_msg(name@, seq![]),
{
    let mut v = chars_of("tree ");
    push_str(name, &mut v);
    push_str(": ", &mut v);
    assert(v@ =~= tree_msg(name@, seq![]));
    v
}

/// The HDU of array `suffix` of tree `name`: data offset, row width, rows.
fn table(fits: &Fits, suffix: &str, name: &str) -> (r: Option<(usize, usize, usize)>)
    ensures
        match table_of(fits.views(), table_key(suffix@, name@)) {
            Some((o, w, n)) => r == Some((o as usize, w as usize, n as usize)) && o <= usize::MAX && w <= usize::MAX && n <= usize::MAX,
            None => r is None,
        },
{
    let mut key = chars_of("kdtree_");
    push_str(suffix, &mut key);
    push_str("_", &mut key);
    push_str(name, &mut key);
    assert(key@ =~= table_key(suffix@, name@));
    let k = string_of(key);
    let ks = k.as_str();
    assert(ks@ == table_key(suffix@, name@));
    match fits.find(ks) {
        Some(h) => {
            let (w, n) = h.table_shape();
            let ghost i = first_named(fits.views(), ks@, 0);
            assert(h@ == fits.views()[i]);
            assert(h.header.entries() == fits.views()[i].entries);
            assert(h.data_offset == fits.views()[i].data_offset);
            Some((h.data_offset, w, n))
        },
        None => None,
    }
}

/// `n` is a power of two.
fn is_pow2(n: usize) -> (r: bool)
    ensures
        r == pow2(n as nat),
{
    let mut m = n;
    while m >= 2 && m % 2 == 0
        invariant
            pow2(n as nat) == pow2(m as nat),
        decreases m,
    {
        m = m / 2;
    }
    m == 1
}

/// An error message `tree <name>: <rest>`.
fn tree_error(name: &str, rest: &str) -> (e: IndexError)
    ensures
        e@ == IndexErrorView::Format(tree_msg(name@, rest@)),
{
    let mut m = tree_prefix(name);
    push_str(rest, &mut m);
    assert(m@ =~= tree_msg(name@, rest@));
    IndexError::Format(string_of(m))
}

/// Append `<a>x<b>`.
fn push_dims(a: usize, b: usize, out: &mut Vec<char>)
    ensures
        final(out)@ == old(out)@ + dims(a as nat, b as nat),
{
    let ghost start = out@;
    push_size(a, out);
    out.push('x');
    push_size(b, out);
    proof { reveal_strlit("x"); }
    assert(out@ =~= start + dims(a as nat, b as nat));
}

impl KdTree {
    /// The tree's layout as plain values.
    pub open spec fn layout(&self) -> KdLayout {
        KdLayout {
            ndim: self.ndim as nat,
            ndata: self.ndata as nat,
            nnodes: self.nnodes as nat,
            nbottom: self.nbottom as nat,
            ninterior: self.ninterior as nat,
            data: self.data,
            split: self.split,
            splitdim: match self.splitdim {
                Some(o) => Some(o as nat),
                None => None,
            },
            lr: match self.lr {
                Some(o) => Some(o as nat),
                None => None,
            },
            perm: match self.perm {
                Some(o) => Some(o as nat),
                None => None,
            },
            linear_lr: self.linear_lr,
            range: match self.range {
                Some(o) => Some(o as nat),
                None => None,
            },
            dim_mask: self.dim_mask as nat,
        }
    }

    /// Parse tree `<name>` from an already-parsed FITS file: its header
    /// card values, its shape, and where each of its arrays lies.
    pub fn parse(fits: &Fits, name: &str) -> (r: Result<KdTree, IndexError>)
        ensures
            match r {
                Ok(t) => {
                    &&& kd_parse_spec(fits.views(), name@) == Ok::<KdLayout, IndexErrorView>(t.layout())
                    &&& t.name@ == name@
                    &&& exists|native: Seq<u8>| #[trigger] native_order(native)
                        && t.swap == (file_little_endian(str_card(fits.views()[first_named(fits.views(), header_key(name@), 0)].entries, "ENDIAN"@)) != (native[0] == 1u8))
                },
                Err(e) => kd_parse_spec(fits.views(), name@) == Err::<KdLayout, IndexErrorView>(e@),
            },
    {
        let ghost hdus = fits.views();
        let (ndata, ndim, nnodes, int_ty, data_ty, linear_lr, swap) = match read_header(fits, name) {
            Ok(h) => h,
            Err(x) => return Err(x),
        };
        let nbottom: usize = if nnodes % 2 == 0 { nnodes / 2 } else { nnodes / 2 + 1 };
        if !is_pow2(nbottom) || nnodes as u128 != 2 * (nbottom as u128) - 1 {
            let mut m = tree_prefix(name);
            push_str("unsupported shape nnodes=", &mut m);
            push_size(nnodes, &mut m);
            assert(m@ =~= tree_msg(name@, "unsupported shape nnodes="@ + nat_digits(nnodes as nat)));
            return Err(IndexError::Format(string_of(m)));
        }
        if ndim == 0 || ndim > 8 {
            let mut m = tree_prefix(name);
            push_str("ndim=", &mut m);
            push_size(ndim, &mut m);
            assert(m@ =~= tree_msg(name@, "ndim="@ + nat_digits(ndim as nat)));
            return Err(IndexError::Format(string_of(m)));
        }
        locate_arrays(fits, name, ndata, ndim, nnodes, int_ty, data_ty, linear_lr, swap)
    }
}

/// The header HDU's declarations, and whether the tree's arrays need their
/// bytes swapped.
fn read_header(fits: &Fits, name: &str) -> (r: Result<(usize, usize, usize, PackedType, PackedType, bool, bool), IndexError>)
    ensures
        match r {
            Ok((ndata, ndim, nnodes, int_ty, data_ty, linear_lr, swap)) => {
                &&& kd_header_spec(fits.views(), name@) == Ok::<KdHeaderView, IndexErrorView>(KdHeaderView {
                    ndata: ndata as nat,
                    ndim: ndim as nat,
                    nnodes: nnodes as nat,
                    int_ty,
                    data_ty,
                    linear_lr,
                })
                &&& exists|native: Seq<u8>| #[trigger] native_order(native)
                    && swap == (file_little_endian(str_card(fits.views()[first_named(fits.views(), header_key(name@), 0)].entries, "ENDIAN"@)) != (native[0] == 1u8))
            },
            Err(e) => kd_header_spec(fits.views(), name@) == Err::<KdHeaderView, IndexErrorView>(e@),
        },
{
    let hname = key_for("kdtree_header_", name);
    let ghost hdus = fits.views();
    let hdu = match fits.find(hname.as_str()) {
        Some(h) => h,
        None => {
            let mut m = chars_of("missing HDU ");
            push_str(hname.as_str(), &mut m);
            return Err(IndexError::Format(string_of(m)));
        },
    };
    let hdr = &hdu.header;
    let ghost e = hdr.entries();
    let nd = match hdr.req_i64("KDT_NDAT") {
        Ok(v) => v,
        Err(x) => return Err(IndexError::Fits(x)),
    };
    let dm = match hdr.req_i64("KDT_NDIM") {
        Ok(v) => v,
        Err(x) => return Err(IndexError::Fits(x)),
    };
    let nn = match hdr.req_i64("KDT_NNOD") {
        Ok(v) => v,
        Err(x) => return Err(IndexError::Fits(x)),
    };
    let int_name = match hdr.get_str("KDT_INT") {
        Some(s) => s,
        None => "u32",
    };
    let data_name = match hdr.get_str("KDT_DATA") {
        Some(s) => s,
        None => "u32",
    };
    let int_ty = match PackedType::from_kdt(int_name) {
        Ok(t) => t,
        Err(x) => return Err(x),
    };
    let data_ty = match PackedType::from_kdt(data_name) {
        Ok(t) => t,
        Err(x) => return Err(x),
    };
    let linear_lr = match hdr.get_bool("KDT_LINL") {
        Some(b) => b,
        None => false,
    };
    let swap = endian_swap(hdr.get_str("ENDIAN"));
    Ok((nd as usize, dm as usize, nn as usize, int_ty, data_ty, linear_lr, swap))
}

/// Find and check every array table of tree `name`, given its header.
#[verifier::rlimit(80)]
#[verifier::spinoff_prover]
fn locate_arrays(
    fits: &Fits,
    name: &str,
    ndata: usize,
    ndim: usize,
    nnodes: usize,
    int_ty: PackedType,
    data_ty: PackedType,
    linear_lr: bool,
    swap: bool,
) -> (r: Result<KdTree, IndexError>)
    requires
        1 <= ndim <= 8,
    ensures
        match r {
            Ok(t) => {
                &&& kd_tables(fits.views(), name@, ndata as nat, ndim as nat, nnodes as nat, int_ty, data_ty, linear_lr) == Ok::<KdLayout, IndexErrorView>(t.layout())
                &&& t.name@ == name@
                &&& t.swap == swap
            },
            Err(e) => kd_tables(fits.views(), name@, ndata as nat, ndim as nat, nnodes as nat, int_ty, data_ty, linear_lr) == Err::<KdLayout, IndexErrorView>(e@),
        },
{
    let ghost hdus = fits.views();
    let nbottom: usize = if nnodes % 2 == 0 { nnodes / 2 } else { nnodes / 2 + 1 };
    let ninterior = nnodes - nbottom;
    let ghost tables = kd_tables(hdus, name@, ndata as nat, ndim as nat, nnodes as nat, int_ty, data_ty, linear_lr);
    let (doff, dw, dn) = match table(fits, "data", name) {
        Some(t) => t,
        None => return Err(tree_error(name, "missing data table")),
    };
    let dsize = data_ty.size();
    let want = ndim * dsize;
    if dn != ndata || dw != want {
        let mut m = tree_prefix(name);
        push_str("data table ", &mut m);
        push_dims(dw, dn, &mut m);
        push_str(", expected ", &mut m);
        push_dims(want, ndata, &mut m);
        assert(m@ =~= tree_msg(name@, "data table "@ + dims(dw as nat, dn as nat) + ", expected "@ + dims(want as nat, ndata as nat)));
        return Err(IndexError::Format(string_of(m)));
    }
    let range = table(fits, "range", name);
    match range {
        Some((_roff, rw, rn)) => {
            if rw != 8 || (rn as u128) < 2 * (ndim as u128) + 1 {
                let mut m = tree_prefix(name);
                push_str("bad range table ", &mut m);
                push_dims(rw, rn, &mut m);
                assert(m@ =~= tree_msg(name@, "bad range table "@ + dims(rw as nat, rn as nat)));
                return Err(IndexError::Format(string_of(m)));
            }
        },
        None => {
            if data_ty.is_int() {
                return Err(tree_error(name, "packed data but no range table"));
            }
        },
    }
    let isize = int_ty.size();
    let split = match table(fits, "split", name) {
        Some((soff, sw, sn)) => {
            if sn != ninterior || sw != isize {
                let mut m = tree_prefix(name);
                push_str("split table ", &mut m);
                push_dims(sw, sn, &mut m);
                push_str(", expected ", &mut m);
                push_dims(isize, ninterior, &mut m);
                assert(m@ =~= tree_msg(name@, "split table "@ + dims(sw as nat, sn as nat) + ", expected "@ + dims(isize as nat, ninterior as nat)));
                return Err(IndexError::Format(string_of(m)));
            }
            Some(ArrRef { off: soff, ty: int_ty })
        },
        None => None,
    };
    let splitdim = match table(fits, "splitdim", name) {
        Some((o, _, _)) => Some(o),
        None => None,
    };
    let lr = match table(fits, "lr", name) {
        Some((loff, lw, ln)) => {
            if ln != nbottom || lw != 4 {
                let mut m = tree_prefix(name);
                push_str("lr table ", &mut m);
                push_dims(lw, ln, &mut m);
                push_str(", expected 4x", &mut m);
                push_size(nbottom, &mut m);
                assert(m@ =~= tree_msg(name@, "lr table "@ + dims(lw as nat, ln as nat) + ", expected 4x"@ + nat_digits(nbottom as nat)));
                return Err(IndexError::Format(string_of(m)));
            }
            Some(loff)
        },
        None => None,
    };
    if lr.is_none() && !linear_lr {
        return Err(tree_error(name, "no lr table and not linear_lr"));
    }
    let perm = match table(fits, "perm", name) {
        Some((poff, pw, pn)) => {
            if pn != ndata || pw != 4 {
                return Err(tree_error(name, "bad perm table"));
            }
            Some(poff)
        },
        None => None,
    };
    let dim_mask: u64 = if splitdim.is_some() || ndim <= 1 {
        0
    } else if ndim <= 2 {
        1
    } else if ndim <= 4 {
        3
    } else {
        7
    };
    let range_off = match range {
        Some((o, _, _)) => Some(o),
        None => None,
    };
    let t = KdTree {
        name: name.to_owned(),
        ndim,
        ndata,
        nnodes,
        nbottom,
        ninterior,
        data: ArrRef { off: doff, ty: data_ty },
        split,
        splitdim,
        lr,
        perm,
        linear_lr,
        range: range_off,
        dim_mask,
        swap,
    };
    proof {
        reveal_with_fuel(pow2_of, 4);
    }
    assert(tables == Ok::<KdLayout, IndexErrorView>(t.layout()));
    Ok(t)
}

/// The data points leaf `node` owns, as a half-open index range: implicit
/// (an even split of the data) or from the `lr` array.
pub open spec fn leaf_span(t: KdLayout, base: Seq<u8>, node: nat, swap: bool) -> (int, int) {
    let leafid = node - t.ninterior;
    if t.linear_lr {
        ((leafid * t.ndata) / (t.nbottom as int), ((leafid + 1) * t.ndata) / (t.nbottom as int))
    } else {
        let lr = ArrRef { off: t.lr.unwrap() as usize, ty: PackedType::U32 };
        let right = int_at(base, lr, leafid, swap);
        let left = if leafid == 0 { 0 } else { ((int_at(base, lr, leafid - 1, swap) + 1) as usize) as int };
        (left, if right + 1 < t.ndata { (right + 1) as int } else { t.ndata as int })
    }
}

/// Bytes of every array of a tree.
pub open spec fn tree_bytes(t: KdLayout) -> int {
    (t.ndata * t.ndim * type_size(t.data.ty)
        + (match t.split { Some(s) => t.ninterior * type_size(s.ty), None => 0 })
        + (if t.lr is Some { t.nbottom * 4 } else { 0 })
        + (if t.perm is Some { t.ndata * 4 } else { 0 })
        + (if t.splitdim is Some { t.ninterior } else { 0 })) as int
}

impl KdTree {
    /// The data points leaf `node` owns: `(first, one past the last)`.
    pub fn leaf_range(&self, base: &[u8], node: usize) -> (r: (usize, usize))
        requires
            self.ninterior <= node < self.nnodes,
            self.nbottom > 0,
            self.nnodes <= self.ninterior + self.nbottom,
            !self.linear_lr ==> self.lr is Some && self.lr.unwrap() + 4 * self.nbottom <= base@.len(),
        ensures
            (r.0 as int, r.1 as int) == leaf_span(self.layout(), base@, node as nat, self.swap),
    {
        let leafid = node - self.ninterior;
        if self.linear_lr {
            let nb = self.nbottom as u128;
            let nd = self.ndata as u128;
            let lf = leafid as u128;
            proof {
                assert((lf * nd) / (nb as int) <= nd && ((lf + 1) * nd) / (nb as int) <= nd) by (nonlinear_arith)
                    requires lf < nb, nb > 0, nd >= 0;
                assert(lf * nd <= 0xffff_ffff_ffff_ffff_ffff_ffff_ffff_ffff && (lf + 1) * nd <= 0xffff_ffff_ffff_ffff_ffff_ffff_ffff_ffff) by (nonlinear_arith)
                    requires lf < nb, nb <= 0xffff_ffff_ffff_ffff, nd <= 0xffff_ffff_ffff_ffff;
            }
            let left = (lf * nd / nb) as usize;
            let right_excl = ((lf + 1) * nd / nb) as usize;
            (left, right_excl)
        } else {
            let lr = ArrRef { off: self.lr.unwrap(), ty: PackedType::U32 };
            proof {
                assert((leafid + 1) * 4 <= self.nbottom * 4) by (nonlinear_arith)
                    requires leafid < self.nbottom;
            }
            let right = lr.get_int(base, leafid, self.swap);
            let left: usize = if leafid == 0 {
                0
            } else {
                (lr.get_int(base, leafid - 1, self.swap) + 1) as usize
            };
            let end: usize = if right + 1 < self.ndata as u64 { (right + 1) as usize } else { self.ndata };
            (left, end)
        }
    }

    /// The split dimension and packed split value of interior node `node`
    /// of a tree whose integer splits carry their dimension in their low
    /// bits.
    pub fn packed_split(&self, base: &[u8], node: usize) -> (r: (usize, u64))
        requires
            self.split matches Some(s) && int_type(s.ty) && s.off + (node + 1) * type_size(s.ty) <= base@.len(),
            self.splitdim is None,
        ensures
            ({
                let raw = int_at(base@, self.split.unwrap(), node as int, self.swap) as u64;
                r == ((raw & self.dim_mask) as usize, raw & !self.dim_mask)
            }),
    {
        let split = self.split.unwrap();
        let raw = split.get_int(base, node, self.swap);
        ((raw & self.dim_mask) as usize, raw & !self.dim_mask)
    }

    /// The split dimension of interior node `node`, from the `splitdim`
    /// array.
    pub fn split_dim(&self, base: &[u8], node: usize) -> (r: usize)
        requires
            self.splitdim matches Some(o) && o + node < base@.len(),
        ensures
            r == base@[self.splitdim.unwrap() + node],
    {
        let n = base.len();
        base[self.splitdim.unwrap() + node] as usize
    }

    /// Estimated resident bytes of this tree's arrays (for cache budgeting).
    pub fn byte_size(&self) -> (r: usize)
        requires
            tree_bytes(self.layout()) <= usize::MAX,
        ensures
            r == tree_bytes(self.layout()),
    {
        let ghost t = self.layout();
        let dsz = self.data.ty.size();
        proof {
            assert(self.ndata * self.ndim * dsz <= tree_bytes(t)) by (nonlinear_arith)
                requires
                    tree_bytes(t) == self.ndata * self.ndim * dsz
                        + (match t.split { Some(s) => t.ninterior * type_size(s.ty), None => 0 })
                        + (if t.lr is Some { t.nbottom * 4 } else { 0 })
                        + (if t.perm is Some { t.ndata * 4 } else { 0 })
                        + (if t.splitdim is Some { t.ninterior } else { 0 }),
                    t.ninterior >= 0, t.nbottom >= 0, t.ndata >= 0;
            assert(self.ndata * self.ndim <= self.ndata * self.ndim * dsz) by (nonlinear_arith)
                requires dsz >= 1;
        }
        let mut sz = self.ndata * self.ndim * dsz;
        let ghost acc1 = sz as int;
        match &self.split {
            Some(s) => {
                let ssz = s.ty.size();
                assert(self.ninterior * ssz >= 0) by (nonlinear_arith)
                    requires ssz >= 1;
                sz = sz + self.ninterior * ssz;
            },
            None => {},
        }
        if self.lr.is_some() {
            sz = sz + self.nbottom * 4;
        }
        if self.perm.is_some() {
            sz = sz + self.ndata * 4;
        }
        if self.splitdim.is_some() {
            sz = sz + self.ninterior;
        }
        sz
    }
}

/// The split-dimension mask of a tree read without a splitdim array keeps
/// the fewest low bits that can number every dimension: one less than the
/// least power of two that is at least the tree's dimension count. With a
/// splitdim array no bits are masked.
pub proof fn lemma_dim_mask_fits(hdus: Seq<HduView>, name: Seq<char>)
    requires
        kd_parse_spec(hdus, name) is Ok,
    ensures
        ({
            let t = kd_parse_spec(hdus, name)->Ok_0;
            &&& 1 <= t.ndim <= 8
            &&& t.splitdim is None ==> {
                &&& pow2(t.dim_mask + 1)
                &&& t.ndim <= t.dim_mask + 1
                &&& t.dim_mask + 1 < 2 * t.ndim
            }
            &&& t.splitdim is Some ==> t.dim_mask == 0
        }),
{
    reveal_with_fuel(pow2, 5);
    reveal_with_fuel(pow2_of, 4);
    let h = kd_header_spec(hdus, name)->Ok_0;
    assert(kd_parse_spec(hdus, name) == kd_tables(hdus, name, h.ndata, h.ndim, h.nnodes, h.int_ty, h.data_ty, h.linear_lr));
}
} // verus!
