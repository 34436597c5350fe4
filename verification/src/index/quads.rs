//! The quads table of an index: the member stars of each quad, and the
//! checks that tie it to the index's trees.

use vstd::prelude::*;

use crate::fits::hdu::{capped, first_named, int_card, str_card, at_least, Fits, HduView};
use crate::index::kdtree::{endian_swap, file_little_endian, native_order, u32_at, IndexErrorView, KdTree};
use crate::index::IndexError;
use crate::text::{chars_of, nat_digits, push_size, push_str, string_of};

verus! {

/// Maximum stars per quad across all published index series.
pub const DQMAX: usize = 5;

/// Where the quads table lies and how to read it.
#[derive(Debug, Clone, Copy)]
pub struct QuadTable {
    /// Offset of the first row.
    pub off: usize,
    /// Bytes per row.
    pub row: usize,
    /// Stars per quad.
    pub dimquads: usize,
    /// Whether the table's integers must be read big-endian.
    pub swap: bool,
}

/// Why an index's parts do not fit together, checked in this order: the
/// code tree's dimension, the star tree's, the tree sizes, the quad size,
/// the quads table's presence and its shape.
pub open spec fn index_problem(
    hdus: Seq<HduView>,
    code_ndim: nat,
    code_ndata: nat,
    star_ndim: nat,
    star_ndata: nat,
    nquads: nat,
    nstars: nat,
    dimquads: nat,
) -> Option<Seq<char>> {
    if code_ndim != 2 * (dimquads - 2) {
        Some("code dim "@ + nat_digits(code_ndim) + " inconsistent with dimquads "@ + nat_digits(dimquads))
    } else if star_ndim != 3 {
        Some("star tree is not 3-D"@)
    } else if code_ndata != nquads || star_ndata != nstars {
        Some("tree sizes inconsistent with meta"@)
    } else if dimquads < 3 || dimquads > DQMAX {
        Some("dimquads "@ + nat_digits(dimquads))
    } else {
        let qi = first_named(hdus, "quads"@, 0);
        if !(0 <= qi < hdus.len()) {
            Some("missing quads table"@)
        } else {
            let e = hdus[qi].entries;
            let qw = capped(at_least(int_card(e, "NAXIS1"@, 0), 0)) as nat;
            let qn = capped(at_least(int_card(e, "NAXIS2"@, 0), 0)) as nat;
            if qn != nquads || qw != 4 * dimquads {
                Some("quads table "@ + nat_digits(qw) + "x"@ + nat_digits(qn) + ", expected "@ + nat_digits(4 * dimquads) + "x"@ + nat_digits(nquads))
            } else {
                None
            }
        }
    }
}

/// Star `i` of quad `q`.
pub open spec fn quad_star(t: QuadTable, base: Seq<u8>, q: int, i: int) -> nat {
    u32_at(base, t.off + q * t.row + 4 * i, t.swap)
}

impl QuadTable {
    /// Check that an index's trees and metadata agree, and find its quads
    /// table. Quads are written native-endian, declared by the primary
    /// header's ENDIAN card.
    pub fn locate(fits: &Fits, codes: &KdTree, stars: &KdTree, nquads: usize, nstars: usize, dimquads: usize) -> (r: Result<QuadTable, IndexError>)
        requires
            dimquads >= 2,
        ensures
            match index_problem(fits.views(), codes.ndim as nat, codes.ndata as nat, stars.ndim as nat, stars.ndata as nat, nquads as nat, nstars as nat, dimquads as nat) {
                Some(m) => r matches Err(e) && e@ == IndexErrorView::Format(m),
                None => r matches Ok(t) && {
                    let qi = first_named(fits.views(), "quads"@, 0);
                    &&& t.off == fits.views()[qi].data_offset
                    &&& t.row == 4 * dimquads
                    &&& t.dimquads == dimquads
                    &&& exists|native: Seq<u8>| #[trigger] native_order(native)
                        && t.swap == (file_little_endian(str_card(fits.views()[0].entries, "ENDIAN"@)) != (native[0] == 1u8))
                },
            },
    {
        if codes.ndim as u128 != 2 * (dimquads as u128 - 2) {
            let mut m = chars_of("code dim ");
            push_size(codes.ndim, &mut m);
            push_str(" inconsistent with dimquads ", &mut m);
            push_size(dimquads, &mut m);
            return Err(IndexError::Format(string_of(m)));
        }
        if stars.ndim != 3 {
            return Err(IndexError::Format("star tree is not 3-D".to_owned()));
        }
        if codes.ndata != nquads || stars.ndata != nstars {
            return Err(IndexError::Format("tree sizes inconsistent with meta".to_owned()));
        }
        if dimquads < 3 || dimquads > DQMAX {
            let mut m = chars_of("dimquads ");
            push_size(dimquads, &mut m);
            return Err(IndexError::Format(string_of(m)));
        }
        let quads = match fits.find("quads") {
            Some(h) => h,
            None => return Err(IndexError::Format("missing quads table".to_owned())),
        };
        let (qw, qn) = quads.table_shape();
        if qn != nquads || qw != 4 * dimquads {
            let mut m = chars_of("quads table ");
            push_size(qw, &mut m);
            push_str("x", &mut m);
            push_size(qn, &mut m);
            push_str(", expected ", &mut m);
            push_size(4 * dimquads, &mut m);
            push_str("x", &mut m);
            push_size(nquads, &mut m);
            return Err(IndexError::Format(string_of(m)));
        }
        if fits.hdus.len() == 0 {
            return Err(IndexError::Format("missing quads table".to_owned()));
        }
        let swap = endian_swap(fits.hdus[0].header.get_str("ENDIAN"));
        Ok(QuadTable { off: quads.data_offset, row: qw, dimquads, swap })
    }

    /// Star IDs of quad `q`: the first `dimquads` slots hold them, the rest
    /// are 0. Returns (ids, dimquads).
    pub fn stars(&self, base: &[u8], q: usize) -> (r: ([u32; DQMAX], usize))
        requires
            self.dimquads <= DQMAX,
            self.off + q * self.row + 4 * self.dimquads <= base@.len(),
        ensures
            r.1 == self.dimquads,
            forall|i: int| 0 <= i < DQMAX ==> r.0@[i] == (if i < self.dimquads { quad_star(*self, base@, q as int, i) } else { 0 }),
    {
        let n = base.len();
        let dq = self.dimquads;
        proof {
            assert(q * self.row <= q * self.row + 4 * self.dimquads);
        }
        let off = self.off + q * self.row;
        let mut out: [u32; DQMAX] = [0u32; 5];
        let mut i: usize = 0;
        while i < dq
            invariant
                i <= dq <= DQMAX,
                n == base@.len(),
                off == self.off + q * self.row,
                off + 4 * dq <= n,
                forall|j: int| 0 <= j < DQMAX ==> out@[j] == (if j < i { quad_star(*self, base@, q as int, j) } else { 0 }),
            decreases dq - i,
        {
            let o = off + 4 * i;
            let b0 = base[o] as u32;
            let b1 = base[o + 1] as u32;
            let b2 = base[o + 2] as u32;
            let b3 = base[o + 3] as u32;
            let v: u32 = if self.swap {
                ((b0 * 256 + b1) * 256 + b2) * 256 + b3
            } else {
                ((b3 * 256 + b2) * 256 + b1) * 256 + b0
            };
            out[i] = v;
            i = i + 1;
        }
        (out, dq)
    }
}

} // verus!
