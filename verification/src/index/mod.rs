//! Reader for stock astrometry.net index files (4100/4200/5000 series).
//!
//! An index file is a multi-HDU FITS file containing:
//! - a `quads` table: for each quad, the IDs of its member stars,
//! - a code kd-tree (`codes`): geometric hash codes of the quads,
//! - a star kd-tree (`stars`): unit-sphere xyz positions,
//! - auxiliary `sweep` / tag-along tables (unused here).
//!
//! The kd-trees are serialized by libkd as one FITS extension per internal
//! array, in the *producer's native byte order* (declared by the `ENDIAN`
//! header card) — not FITS big-endian.

use vstd::prelude::*;

use crate::fits::FitsError;

pub mod kdtree;
pub mod quads;

pub use kdtree::PackedType;
pub use quads::{QuadTable, DQMAX};
pub use kdtree::KdTree;

verus! {

/// An I/O failure, carried through as it came.
#[verifier::external_type_specification]
#[verifier::external_body]
pub struct ExIoError(std::io::Error);

/// Why an index file could not be used.
#[derive(Debug)]
pub enum IndexError {
    /// The FITS structure is broken.
    Fits(FitsError),
    /// The file could not be read.
    Io(std::io::Error),
    /// The file is FITS but not a usable index.
    Format(String),
}

} // verus!
