//! The image-drawing entry point under its free-function name.

use vstd::prelude::*;

use crate::error::PlacerError;
use crate::image::ImageSample;
use crate::image::built_pixels;
use crate::image::sample_in_range;
use crate::pixel::Pixel;

verus! {

/// Builds the pixel list for one decoded image at the given offset;
/// see [`crate::image::build_pixels_from_image`].
pub fn draw_image(samples: &Vec<ImageSample>, image_x_offset: u32, image_y_offset: u32) -> (r:
    Result<Vec<Pixel>, PlacerError>)
    ensures
        match r {
            Ok(pixels) => {
                &&& pixels@ == built_pixels(samples@, image_x_offset, image_y_offset)
                &&& forall|i: int|
                    0 <= i < samples@.len() && samples@[i].a != 0 ==> sample_in_range(
                        #[trigger] samples@[i],
                        image_x_offset,
                        image_y_offset,
                    )
            },
            Err(e) => {
                &&& e is CoordinateOutOfRange
                &&& exists|i: int|
                    0 <= i < samples@.len() && samples@[i].a != 0 && !sample_in_range(
                        #[trigger] samples@[i],
                        image_x_offset,
                        image_y_offset,
                    )
            },
        },
{
    crate::image::build_pixels_from_image(samples, image_x_offset, image_y_offset)
}

} // verus!
