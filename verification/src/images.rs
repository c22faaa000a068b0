//! Images: what the library asks of the `image` crate.

use vstd::prelude::*;

verus! {

/// A decoded image, carried through unopened.
#[verifier::external_type_specification]
#[verifier::external_body]
pub struct ExDynamicImage(image::DynamicImage);

/// The width and the height of an image, in pixels.
pub uninterp spec fn image_size(img: image::DynamicImage) -> (u32, u32);

/// How many channels a pixel of an image has, and how many bits a channel. The two tell the kinds of
/// image apart: with 32 bits a channel is a number in single precision.
pub uninterp spec fn color_type(img: image::DynamicImage) -> (nat, nat);

/// The pixels of an image, row by row, each by the values of its channels. A channel in single
/// precision counts by its IEEE-754 bits, where all bits that stand for no number count as one.
pub uninterp spec fn pixels(img: image::DynamicImage) -> Seq<Seq<u32>>;

/// The pixels that `DynamicImage::resize_exact` makes with the triangle filter, from the kind of an
/// image, its size and its pixels, for a new width and height.
pub uninterp spec fn resampled(
    color: (nat, nat),
    size: (u32, u32),
    pixels: Seq<Seq<u32>>,
    width: u32,
    height: u32,
) -> Seq<Seq<u32>>;

/// The bytes that `DynamicImage::to_rgb8` makes of the pixels of an image of some kind: pixel by
/// pixel the red, the green and the blue.
pub uninterp spec fn rgb8(color: (nat, nat), pixels: Seq<Seq<u32>>) -> Seq<u8>;

/// The grey levels that `DynamicImage::to_luma8` may give an image, row by row.
pub uninterp spec fn may_grey(img: image::DynamicImage, levels: Seq<u8>) -> bool;

/// `DynamicImage::width` and `DynamicImage::height`: the two depend on the image alone.
#[verifier::external_body]
pub(crate) fn size(img: &image::DynamicImage) -> (r: (u32, u32))
    ensures
        r == image_size(*img),
{
    (img.width(), img.height())
}

/// `DynamicImage::to_luma8` gives one grey level for each pixel. The levels are some that the image
/// allows. Which ones is left open: the crate weighs the colours with a fused multiply-add where the
/// target has one.
#[verifier::external_body]
pub(crate) fn to_luma8(img: &image::DynamicImage) -> (r: Vec<u8>)
    ensures
        may_grey(*img, r@),
        r@.len() == image_size(*img).0 * image_size(*img).1,
{
    img.to_luma8().pixels().map(|p| p.0[0]).collect()
}

/// The extent of a cut along one side: what is left of the image from `start` on bounds it.
pub open spec fn cut_length(frame: u32, start: u32, length: u32) -> int {
    if start >= frame {
        0
    } else if length <= frame - start {
        length as int
    } else {
        frame - start
    }
}

/// The pixels of a rectangle, row by row, among the pixels of an image `frame_width` wide.
pub open spec fn cut_out(
    pixels: Seq<Seq<u32>>,
    frame_width: int,
    x: int,
    y: int,
    width: int,
    height: int,
) -> Seq<Seq<u32>> {
    Seq::new(
        (width * height) as nat,
        |k: int| pixels[(y + k / width) * frame_width + x + k % width],
    )
}

/// `DynamicImage::crop_imm` copies the pixels of a rectangle as far as it lies inside the image, and
/// keeps the kind of the image.
#[verifier::external_body]
pub(crate) fn crop_imm(
    img: &image::DynamicImage,
    x: u32,
    y: u32,
    width: u32,
    height: u32,
) -> (r: image::DynamicImage)
    ensures
        color_type(r) == color_type(*img),
        image_size(r).0 == cut_length(image_size(*img).0, x, width),
        image_size(r).1 == cut_length(image_size(*img).1, y, height),
        pixels(r) == cut_out(
            pixels(*img),
            image_size(*img).0 as int,
            x as int,
            y as int,
            image_size(r).0 as int,
            image_size(r).1 as int,
        ),
{
    img.crop_imm(x, y, width, height)
}

/// `DynamicImage::resize_exact` with `FilterType::Triangle` resamples an image to a size. The
/// result has that size and the kind of the image, and its pixels depend on the kind, the size and
/// the pixels of the image and on the new size alone. The crate resamples the height first, to
/// pixels of 16 bytes; the bounds keep what it makes, then and at last, within what a vector can
/// hold.
#[verifier::external_body]
pub(crate) fn resize_exact(img: &image::DynamicImage, width: u32, height: u32) -> (r:
    image::DynamicImage)
    requires
        0 < width <= 0x10000,
        0 < height <= 0x10000,
        16 * image_size(*img).0 * height <= isize::MAX,
        16 * width * height <= isize::MAX,
    ensures
        color_type(r) == color_type(*img),
        image_size(r) == (width, height),
        pixels(r) == resampled(color_type(*img), image_size(*img), pixels(*img), width, height),
{
    img.resize_exact(width, height, image::imageops::FilterType::Triangle)
}

/// `DynamicImage::to_rgb8` gives three bytes for each pixel, which depend on the kind of the image
/// and its pixels alone. The bound keeps them within what a vector can hold.
#[verifier::external_body]
pub(crate) fn to_rgb8(img: &image::DynamicImage) -> (r: Vec<u8>)
    requires
        3 * image_size(*img).0 * image_size(*img).1 <= isize::MAX,
    ensures
        r@ == rgb8(color_type(*img), pixels(*img)),
        r@.len() == 3 * image_size(*img).0 * image_size(*img).1,
{
    img.to_rgb8().pixels().flat_map(|p| p.0).collect()
}

} // verus!
