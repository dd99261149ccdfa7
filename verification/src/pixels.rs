//! Procedural rectangle fill: one pixel per integer coordinate of a
//! half-open box, all carrying one 24-bit RGB color.

use vstd::prelude::*;

use crate::pixel::Pixel;

verus! {

/// The red channel of a packed 24-bit color: bits 16-23.
pub open spec fn color_r(color: u32) -> u16 {
    (((color >> 16) & 0xff) as u16)
}

/// The green channel of a packed 24-bit color: bits 8-15.
pub open spec fn color_g(color: u32) -> u16 {
    (((color >> 8) & 0xff) as u16)
}

/// The blue channel of a packed 24-bit color: bits 0-7.
pub open spec fn color_b(color: u32) -> u16 {
    ((color & 0xff) as u16)
}

/// The plain pixel a rectangle fill paints at `(x, y)`.
pub open spec fn fill_pixel(x: u32, y: u32, color: u32) -> Pixel {
    Pixel {
        x: x as u16,
        y: y as u16,
        r: color_r(color),
        g: color_g(color),
        b: color_b(color),
        big: false,
    }
}

/// One column of the fill: the pixels at `x` for every `y` in
/// `start_y..end_y`, in ascending order.
pub open spec fn column_pixels(x: u32, start_y: u32, end_y: u32, color: u32) -> Seq<Pixel>
    decreases end_y - start_y,
{
    if start_y >= end_y {
        Seq::empty()
    } else {
        column_pixels(x, start_y, ((end_y - 1) as u32), color).push(
            fill_pixel(x, ((end_y - 1) as u32), color),
        )
    }
}

/// The whole fill of the half-open box: the columns for every `x` in
/// `start_x..end_x`, in ascending order, each column in ascending
/// `y` order.
pub open spec fn rect_pixels(start_x: u32, end_x: u32, start_y: u32, end_y: u32, color: u32) -> Seq<
    Pixel,
>
    decreases end_x - start_x,
{
    if start_x >= end_x {
        Seq::empty()
    } else {
        rect_pixels(start_x, ((end_x - 1) as u32), start_y, end_y, color) + column_pixels(
            ((end_x - 1) as u32),
            start_y,
            end_y,
            color,
        )
    }
}

/// Fills the half-open box from `(start_x, start_y)` to
/// `(end_x, end_y)` with one 24-bit RGB color: one plain pixel per
/// integer coordinate, columns in ascending `x`, each in ascending
/// `y`, channels unpacked from the color's three bytes.
pub fn draw(start_x: u32, start_y: u32, end_x: u32, end_y: u32, color: u32) -> (r: Vec<Pixel>)
    requires
        end_x <= 0x10000,
        end_y <= 0x10000,
    ensures
        r@ == rect_pixels(start_x, end_x, start_y, end_y, color),
{
    let mut pixels: Vec<Pixel> = Vec::new();
    let mut x: u32 = start_x;
    if start_x >= end_x {
        return pixels;
    }
    while x < end_x
        invariant
            start_x <= x <= end_x,
            end_x <= 0x10000,
            end_y <= 0x10000,
            pixels@ == rect_pixels(start_x, x, start_y, end_y, color),
        decreases end_x - x,
    {
        let mut y: u32 = start_y;
        while y < end_y
            invariant
                start_y <= y <= end_y || (start_y >= end_y && y == start_y),
                start_x <= x < end_x,
                end_x <= 0x10000,
                end_y <= 0x10000,
                pixels@ == rect_pixels(start_x, x, start_y, end_y, color) + column_pixels(
                    x,
                    start_y,
                    y,
                    color,
                ),
            decreases end_y - y,
        {
            let red: u32 = (color >> 16) & 0xff;
            let green: u32 = (color >> 8) & 0xff;
            let blue: u32 = color & 0xff;
            proof {
                assert((color >> 16) & 0xff <= 0xff && (color >> 8) & 0xff <= 0xff && color & 0xff
                    <= 0xff) by (bit_vector);
            }
            pixels.push(
                Pixel {
                    x: x as u16,
                    y: y as u16,
                    r: red as u16,
                    g: green as u16,
                    b: blue as u16,
                    big: false,
                },
            );
            proof {
                assert(column_pixels(x, start_y, (y + 1) as u32, color) == column_pixels(
                    x,
                    start_y,
                    y,
                    color,
                ).push(fill_pixel(x, y, color)));
            }
            y = y + 1;
        }
        proof {
            assert(rect_pixels(start_x, (x + 1) as u32, start_y, end_y, color) == rect_pixels(
                start_x,
                x,
                start_y,
                end_y,
                color,
            ) + column_pixels(x, start_y, end_y, color));
        }
        x = x + 1;
    }
    pixels
}

/// A plain (unmerged) pixel whose channels are true 8-bit samples.
pub open spec fn plain_pixel(p: Pixel) -> bool {
    &&& !p.big
    &&& p.r <= 255
    &&& p.g <= 255
    &&& p.b <= 255
}

/// Every pixel a fill produces is a plain pixel whose channels are
/// true 8-bit samples.
pub proof fn lemma_rect_pixels_plain(start_x: u32, end_x: u32, start_y: u32, end_y: u32, color: u32)
    ensures
        forall|k: int|
            0 <= k < rect_pixels(start_x, end_x, start_y, end_y, color).len() ==> plain_pixel(
                #[trigger] rect_pixels(start_x, end_x, start_y, end_y, color)[k],
            ),
    decreases end_x - start_x,
{
    if start_x < end_x {
        let whole = rect_pixels(start_x, end_x, start_y, end_y, color);
        let left = rect_pixels(start_x, ((end_x - 1) as u32), start_y, end_y, color);
        let col = column_pixels(((end_x - 1) as u32), start_y, end_y, color);
        lemma_rect_pixels_plain(start_x, ((end_x - 1) as u32), start_y, end_y, color);
        lemma_column_pixels_plain(((end_x - 1) as u32), start_y, end_y, color);
        assert forall|k: int| 0 <= k < whole.len() implies plain_pixel(#[trigger] whole[k]) by {
            if k < left.len() {
                assert(whole[k] == left[k]);
            } else {
                assert(whole[k] == col[k - left.len()]);
            }
        }
    }
}

/// Every pixel of one fill column is a plain pixel with 8-bit
/// channels.
proof fn lemma_column_pixels_plain(x: u32, start_y: u32, end_y: u32, color: u32)
    ensures
        forall|k: int|
            0 <= k < column_pixels(x, start_y, end_y, color).len() ==> plain_pixel(
                #[trigger] column_pixels(x, start_y, end_y, color)[k],
            ),
    decreases end_y - start_y,
{
    let c = color;
    assert((c >> 16) & 0xff <= 0xff && (c >> 8) & 0xff <= 0xff && c & 0xff <= 0xff) by (bit_vector);
    if start_y < end_y {
        let whole = column_pixels(x, start_y, end_y, color);
        let rest = column_pixels(x, start_y, ((end_y - 1) as u32), color);
        lemma_column_pixels_plain(x, start_y, ((end_y - 1) as u32), color);
        assert forall|k: int| 0 <= k < whole.len() implies plain_pixel(#[trigger] whole[k]) by {
            if k < rest.len() {
                assert(whole[k] == rest[k]);
            } else {
                assert(whole[k] == fill_pixel(x, ((end_y - 1) as u32), color));
            }
        }
    }
}

} // verus!
