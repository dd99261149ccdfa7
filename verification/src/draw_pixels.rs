//! The rectangle-fill entry point under its free-function name.

use vstd::prelude::*;

use crate::pixel::Pixel;
use crate::pixels::rect_pixels;

verus! {

/// Fills the half-open box from `(start_x, start_y)` to
/// `(end_x, end_y)` with one 24-bit RGB color; see
/// [`crate::pixels::draw`].
pub fn draw_pixels(start_x: u32, start_y: u32, end_x: u32, end_y: u32, color: u32) -> (r: Vec<
    Pixel,
>)
    requires
        end_x <= 0x10000,
        end_y <= 0x10000,
    ensures
        r@ == rect_pixels(start_x, end_x, start_y, end_y, color),
{
    crate::pixels::draw(start_x, start_y, end_x, end_y, color)
}

} // verus!
