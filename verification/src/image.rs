//! Turning decoded image samples into canvas pixels.
//!
//! Decoding an image file is the collaborator's job: it hands this
//! module one sample per raster position.  Everything after that
//! point is verified here: dropping fully transparent samples,
//! shifting by the configured offset, and range-checking the shifted
//! coordinates against the 16-bit canvas.

use vstd::prelude::*;

use crate::error::PlacerError;
use crate::pixel::Pixel;

verus! {

/// One decoded raster sample: its position within the image and its
/// four 8-bit channels.
#[derive(Clone, Copy, Debug, PartialEq, Eq, Structural)]
pub struct ImageSample {
    pub x: u32,
    pub y: u32,
    pub r: u8,
    pub g: u8,
    pub b: u8,
    pub a: u8,
}

/// The sample's position, shifted by the offset, fits the 16-bit
/// canvas coordinate range.
pub open spec fn sample_in_range(s: ImageSample, x_offset: u32, y_offset: u32) -> bool {
    &&& s.x + x_offset <= 0xffff
    &&& s.y + y_offset <= 0xffff
}

/// The canvas pixel for one opaque sample: coordinates shifted by the
/// offset, channels widened, never a big pixel.
pub open spec fn pixel_of_sample(s: ImageSample, x_offset: u32, y_offset: u32) -> Pixel {
    Pixel {
        x: ((s.x + x_offset) as u16),
        y: ((s.y + y_offset) as u16),
        r: s.r as u16,
        g: s.g as u16,
        b: s.b as u16,
        big: false,
    }
}

/// The pixels an image contributes: one per sample with a nonzero
/// alpha channel, in sample order; transparent samples are dropped.
pub open spec fn built_pixels(samples: Seq<ImageSample>, x_offset: u32, y_offset: u32) -> Seq<
    Pixel,
>
    decreases samples.len(),
{
    if samples.len() == 0 {
        Seq::empty()
    } else if samples.last().a != 0 {
        built_pixels(samples.drop_last(), x_offset, y_offset).push(
            pixel_of_sample(samples.last(), x_offset, y_offset),
        )
    } else {
        built_pixels(samples.drop_last(), x_offset, y_offset)
    }
}

/// Builds the pixel list for one decoded image: every sample whose
/// alpha channel is nonzero becomes one plain pixel at its
/// offset-shifted position, in sample order.  Fails, placing nothing,
/// exactly when some opaque sample's shifted position does not fit
/// the 16-bit canvas.
pub fn build_pixels_from_image(
    samples: &Vec<ImageSample>,
    x_offset: u32,
    y_offset: u32,
) -> (r: Result<Vec<Pixel>, PlacerError>)
    ensures
        match r {
            Ok(pixels) => {
                &&& pixels@ == built_pixels(samples@, x_offset, y_offset)
                &&& forall|i: int|
                    0 <= i < samples@.len() && samples@[i].a != 0 ==> sample_in_range(
                        #[trigger] samples@[i],
                        x_offset,
                        y_offset,
                    )
            },
            Err(e) => {
                &&& e is CoordinateOutOfRange
                &&& exists|i: int|
                    0 <= i < samples@.len() && samples@[i].a != 0 && !sample_in_range(
                        #[trigger] samples@[i],
                        x_offset,
                        y_offset,
                    )
            },
        },
{
    let mut pixels: Vec<Pixel> = Vec::new();
    let mut i: usize = 0;
    while i < samples.len()
        invariant
            i <= samples@.len(),
            pixels@ == built_pixels(samples@.take(i as int), x_offset, y_offset),
            forall|j: int|
                0 <= j < i && samples@[j].a != 0 ==> sample_in_range(
                    #[trigger] samples@[j],
                    x_offset,
                    y_offset,
                ),
        decreases samples@.len() - i,
    {
        let s = samples[i];
        proof {
            assert(samples@.take(i + 1).drop_last() =~= samples@.take(i as int));
            assert(samples@.take(i + 1).last() == s);
        }
        if s.a != 0 {
            let sx: u64 = s.x as u64 + x_offset as u64;
            let sy: u64 = s.y as u64 + y_offset as u64;
            if sx > 0xffff || sy > 0xffff {
                return Err(PlacerError::CoordinateOutOfRange);
            }
            pixels.push(
                Pixel {
                    x: sx as u16,
                    y: sy as u16,
                    r: s.r as u16,
                    g: s.g as u16,
                    b: s.b as u16,
                    big: false,
                },
            );
        }
        i = i + 1;
    }
    proof {
        assert(samples@.take(samples@.len() as int) =~= samples@);
    }
    Ok(pixels)
}

/// Draws one image: the pixel list for its opaque samples at the
/// given offset, or the error when a shifted position leaves the
/// canvas.
pub fn draw(samples: &Vec<ImageSample>, image_x_offset: u32, image_y_offset: u32) -> (r: Result<
    Vec<Pixel>,
    PlacerError,
>)
    ensures
        match r {
            Ok(pixels) => {
                &&& pixels@ == built_pixels(samples@, image_x_offset, image_y_offset)
                &&& forall|i: int|
                    0 <= i < samples@.len() && samples@[i].a != 0 ==> sample_in_range(
                        #[trigger] samples@[i],
                        image_x_offset,
                        image_y_offset,
                    )
            },
            Err(e) => {
                &&& e is CoordinateOutOfRange
                &&& exists|i: int|
                    0 <= i < samples@.len() && samples@[i].a != 0 && !sample_in_range(
                        #[trigger] samples@[i],
                        image_x_offset,
                        image_y_offset,
                    )
            },
        },
{
    build_pixels_from_image(samples, image_x_offset, image_y_offset)
}

} // verus!
