//! The pixel value type that every other component operates on.

use vstd::prelude::*;

verus! {

/// One draw command for the canvas: a coordinate, a color, and a flag
/// that marks a merged 2x2 block ("big pixel").
///
/// Coordinates are 16-bit canvas positions; the color channels are
/// 8-bit samples stored widened.  For the address encoding to be
/// well-formed, `x` must fit in 12 bits and each channel in 8 bits
/// (see [`valid_pixel`]).  Equality is structural over all five fields
/// and the flag.
#[derive(Clone, Copy, Debug, PartialEq, Eq, Hash, Structural)]
pub struct Pixel {
    pub x: u16,
    pub y: u16,
    pub r: u16,
    pub g: u16,
    pub b: u16,
    pub big: bool,
}

/// A pixel the address encoder accepts: `x` fits in the 12 bits below
/// the command discriminant, and each color channel is a true 8-bit
/// sample.
pub open spec fn valid_pixel(p: Pixel) -> bool {
    &&& p.x < 4096
    &&& p.r <= 255
    &&& p.g <= 255
    &&& p.b <= 255
}

} // verus!
