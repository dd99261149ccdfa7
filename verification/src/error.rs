//! The library's error type.

use vstd::prelude::*;

verus! {

/// Why building pixels for a frame or image failed.  Every such
/// failure is terminal for the current operation: no partial batch is
/// placed.
#[derive(Debug)]
pub enum PlacerError {
    /// The image file could not be read or decoded; carries the
    /// decoder's message.
    OpenImageFailed(String),
    /// An opaque sample, once offset-shifted, falls outside the
    /// 16-bit canvas coordinate range.
    CoordinateOutOfRange,
}

} // verus!
