//! Errors of image decoding and star extraction.

use vstd::prelude::*;

use crate::fits::FitsError;

verus! {

/// An image codec failure, carried through as it came.
#[verifier::external_type_specification]
#[verifier::external_body]
pub struct ExImageError(image::ImageError);

/// Why an image yielded no stars.
#[derive(Debug)]
pub enum ExtractError {
    /// The image codec could not decode the file.
    Image(image::ImageError),
    /// The file is FITS but could not be read.
    Fits(FitsError),
    /// An image this pipeline does not handle.
    Unsupported(String),
}

} // verus!
