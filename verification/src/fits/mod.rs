//! Minimal FITS reader and writer for astrometry.net index files and camera
//! images.
//!
//! HDUs are described by byte offsets into the caller's buffer (typically a
//! memory map), never copied. The reader tolerates astrometry.net quirks:
//! blank-keyword continuation cards and native-endian table payloads.

use vstd::prelude::*;

pub mod write;
pub mod hdu;
pub mod header;
pub mod readback;

pub use write::Card;
pub use hdu::{Fits, Hdu};
pub use header::{Header, Value};

verus! {

/// Why a buffer could not be read as FITS.
#[derive(Debug, Clone, PartialEq, Eq)]
pub enum FitsError {
    /// Not a FITS file (missing SIMPLE/XTENSION).
    NotFits,
    /// The file ends before the structure it declares, at this offset.
    Truncated(usize),
    /// An invalid header card.
    BadCard(String),
    /// A required card is missing.
    MissingCard(String),
    /// Something this reader does not handle.
    Unsupported(String),
}

/// What a `FitsError` holds.
pub enum FitsErrorView {
    NotFits,
    Truncated(usize),
    BadCard(Seq<char>),
    MissingCard(Seq<char>),
    Unsupported(Seq<char>),
}

impl View for FitsError {
    type V = FitsErrorView;

    open spec fn view(&self) -> FitsErrorView {
        match self {
            FitsError::NotFits => FitsErrorView::NotFits,
            FitsError::Truncated(o) => FitsErrorView::Truncated(*o),
            FitsError::BadCard(s) => FitsErrorView::BadCard(s@),
            FitsError::MissingCard(s) => FitsErrorView::MissingCard(s@),
            FitsError::Unsupported(s) => FitsErrorView::Unsupported(s@),
        }
    }
}

/// Bytes in one FITS block.
pub const BLOCK: usize = 2880;

/// Bytes in one header card.
pub const CARD: usize = 80;

/// Cards in one block.
pub const CARDS_PER_BLOCK: usize = 36;

} // verus!
