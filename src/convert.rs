//! Conversion between the raster and the `image` crate's decoded images.
use crate::grid::{ImageData, CHANNELS};
use vstd::prelude::*;

verus! {

#[verifier::external_type_specification]
#[verifier::external_body]
pub struct ExDynamicImage(image::DynamicImage);

/// Relies on `image::DynamicImage::to_rgba8`: an RGBA8 copy of any decoded
/// image. Its buffer holds at least `4 * width * height` bytes, as
/// `ImageBuffer::from_raw` checks when a buffer is made.
#[verifier::external_body]
fn rgba8_parts(img: &image::DynamicImage) -> (r: (u32, u32, Vec<u8>))
    ensures
        r.2@.len() >= r.0 as int * r.1 as int * 4,
{
    let rgba = img.to_rgba8();
    let (width, height) = rgba.dimensions();
    (width, height, rgba.into_raw())
}

/// Relies on `image::ImageBuffer::from_raw`, which accepts a buffer of at
/// least `4 * width * height` bytes, wrapped as `DynamicImage::ImageRgba8`.
#[verifier::external_body]
fn rgba8_image(width: u32, height: u32, data: Vec<u8>) -> image::DynamicImage
    requires
        data@.len() >= width as int * height as int * 4,
{
    image::DynamicImage::ImageRgba8(image::ImageBuffer::from_raw(width, height, data).unwrap())
}

impl ImageData {
    /// The raster of a decoded image, converted to RGBA8.
    pub fn from_dynamic_image(img: &image::DynamicImage) -> (r: ImageData)
        ensures
            r.wf(),
            r.width <= u32::MAX,
            r.height <= u32::MAX,
    {
        let (w, h, mut raw) = rgba8_parts(img);
        let len = raw.len();
        let width = w as usize;
        let height = h as usize;
        assert(0 <= width * height <= width * height * 4) by (nonlinear_arith);
        let n = width * height * CHANNELS;
        raw.truncate(n);
        ImageData { data: raw, width, height, channels: CHANNELS }
    }

    /// The raster as an RGBA8 `DynamicImage`.
    pub fn to_dynamic_image(&self) -> image::DynamicImage
        requires
            self.wf(),
            self.width <= u32::MAX,
            self.height <= u32::MAX,
    {
        rgba8_image(self.width as u32, self.height as u32, self.data.clone())
    }
}

} // verus!
