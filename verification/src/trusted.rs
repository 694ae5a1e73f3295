//! The calls into the `image` and `palette` crates. Nothing in this file is proved:
//! each contract says what the crate's code is relied on to do.

use vstd::prelude::*;
use crate::pixel::{Pixel, PixelGrid};
use image::{DynamicImage, ImageBuffer, Rgba};
use palette::color_difference::EuclideanDistance;
use palette::white_point::D65;
use palette::{cast, FromColor, Lab, Srgb};

verus! {

/// An image of the `image` crate, of any pixel format.
#[verifier::external_type_specification]
#[verifier::external_body]
pub struct ExDynamicImage(DynamicImage);

/// The white point that `Lab` has by default.
#[verifier::external_type_specification]
#[verifier::external_body]
pub struct ExD65(D65);

/// The error of a conversion that `palette` implements for `Lab`. The library makes no
/// such conversion, but a declaration of `Lab` needs the types of its impls declared.
#[verifier::external_type_specification]
#[verifier::external_body]
pub struct ExTryFromSliceError(core::array::TryFromSliceError);

/// A colour in CIE L\*a\*b\*. The library carries such values from one call into
/// `palette` to the next and never looks inside.
#[verifier::external_type_specification]
#[verifier::external_body]
#[verifier::reject_recursive_types(Wp)]
#[verifier::reject_recursive_types(T)]
pub struct ExLab<Wp, T>(Lab<Wp, T>);

/// The width of an image in pixels.
pub uninterp spec fn image_width(img: DynamicImage) -> nat;

/// The height of an image in pixels.
pub uninterp spec fn image_height(img: DynamicImage) -> nat;

/// The pixels of an image, read as 8-bit RGBA, row by row from the top left.
pub uninterp spec fn image_rgba(img: DynamicImage) -> Seq<Pixel>;

/// `DynamicImage::to_rgba8`, with the result copied out pixel by pixel. The buffer that
/// `to_rgba8` returns has the width and height of the image, and its `pixels()` walks
/// `width * height` pixels in row-major order.
#[verifier::external_body]
pub(crate) fn rgba_grid(img: &DynamicImage) -> (grid: PixelGrid)
    ensures
        grid.wf(),
        grid.width == image_width(*img),
        grid.height == image_height(*img),
        grid.pixels@ == image_rgba(*img),
{
    let rgba = img.to_rgba8();
    let (width, height) = rgba.dimensions();
    let pixels = rgba.pixels().map(|p| Pixel { r: p[0], g: p[1], b: p[2], a: p[3] }).collect();
    PixelGrid { width, height, pixels }
}

/// `ImageBuffer::from_fn`, wrapped as `DynamicImage::ImageRgba8`. The image has the
/// width and height of the grid, and `from_fn` sets the pixel in column `x` of row `y`
/// to what the closure returns for `(x, y)`, with `x` below the width and `y` below the
/// height. Read back as 8-bit RGBA, such an image gives a copy of its own buffer.
#[verifier::external_body]
pub(crate) fn image_from_grid(grid: &PixelGrid) -> (img: DynamicImage)
    requires
        grid.wf(),
    ensures
        image_width(img) == grid.width,
        image_height(img) == grid.height,
        image_rgba(img) == grid.pixels@,
{
    DynamicImage::ImageRgba8(
        ImageBuffer::from_fn(
            grid.width,
            grid.height,
            |x, y|
                {
                    let p = grid.pixel_at(x, y);
                    Rgba([p.r, p.g, p.b, p.a])
                },
        ),
    )
}

/// A palette entry, read as sRGB, in CIE L\*a\*b\*: `Lab::from_color` on the entry made
/// linear by `Rgb::into_linear`. Nothing is claimed of the value: it comes out of
/// floating-point arithmetic.
#[verifier::external_body]
pub(crate) fn lab_of_entry(entry: &[u8; 3]) -> (lab: Lab) {
    Lab::from_color(cast::from_array_ref::<Srgb<u8>>(entry).into_linear())
}

/// The red, green and blue of a pixel, read as sRGB, in CIE L\*a\*b\*: `Lab::from_color`
/// on the channels scaled to the range from 0 to 1 by `Rgb::into_format` and made linear
/// by `Rgb::into_linear`. Nothing is claimed of the value: it comes out of floating-point
/// arithmetic.
#[verifier::external_body]
pub(crate) fn lab_of_pixel(pixel: Pixel) -> (lab: Lab) {
    let color: Srgb = Srgb::new(pixel.r, pixel.g, pixel.b).into_format();
    Lab::from_color(color.into_linear())
}

/// The distance between two colours in CIE L\*a\*b\*: the result of
/// `EuclideanDistance::distance`, as the bits of the float. The distance is not
/// negative, and the bit patterns of such floats are ordered as the floats are. Nothing
/// is claimed of the value: it comes out of floating-point arithmetic.
#[verifier::external_body]
pub(crate) fn lab_distance_key(from: &Lab, to: &Lab) -> (key: u32) {
    from.distance(*to).to_bits()
}

} // verus!
