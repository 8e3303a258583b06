//! Raster images of RGBA pixels, held in the `image` crate's buffer.
//!
//! Verified code sees an image as a width, a height and its pixels in
//! row-major order; the buffer itself is reached only through the few calls
//! at the end of this file.

use vstd::prelude::*;

verus! {

/// A raster image of four 8-bit channels per pixel. It holds an
/// `image::RgbaImage`, of which verified code knows what `width`, `height`
/// and `pixels` say.
#[verifier::external_body]
#[derive(Debug)]
pub struct RasterImage {
    buffer: image::RgbaImage,
}

/// The width of an image in pixels.
pub uninterp spec fn width(img: RasterImage) -> nat;

/// The height of an image in pixels.
pub uninterp spec fn height(img: RasterImage) -> nat;

/// The pixels of an image as (red, green, blue, alpha), row after row from
/// the top, each row from the left.
pub uninterp spec fn pixels(img: RasterImage) -> Seq<(u8, u8, u8, u8)>;

/// The samples that the image's container holds beyond its last pixel.
pub uninterp spec fn spare(img: RasterImage) -> Seq<u8>;

/// Where the pixel in column `x` of row `y` stands among `pixels`.
pub open spec fn position(img: RasterImage, x: nat, y: nat) -> int {
    (y * width(img) + x) as int
}

/// A position inside an image of `w` by `h` pixels lies below `w * h`.
pub proof fn lemma_position_in_image(x: nat, y: nat, w: nat, h: nat)
    by (nonlinear_arith)
    requires
        x < w,
        y < h,
    ensures
        0 <= y * w + x < w * h,
{
}

/// The pixels that a run of samples holds, four samples to a pixel, as far
/// as `count` pixels.
pub open spec fn grouped(samples: Seq<u8>, count: nat) -> Seq<(u8, u8, u8, u8)> {
    Seq::new(
        count,
        |i: int| (samples[4 * i], samples[4 * i + 1], samples[4 * i + 2], samples[4 * i + 3]),
    )
}

/// Whether a container of `samples` samples makes an image of `width` by
/// `height` pixels: four times the width is within `usize`, and there are
/// four samples for every pixel.
pub open spec fn makes_image(width: nat, height: nat, samples: nat) -> bool {
    4 * width <= usize::MAX && 4 * width * height <= samples
}

/// The samples of a run of pixels: red, green, blue and alpha of each pixel
/// in turn.
pub open spec fn flat(pixels: Seq<(u8, u8, u8, u8)>) -> Seq<u8> {
    Seq::new(
        4 * pixels.len(),
        |k: int|
            if k % 4 == 0 {
                pixels[k / 4].0
            } else if k % 4 == 1 {
                pixels[k / 4].1
            } else if k % 4 == 2 {
                pixels[k / 4].2
            } else {
                pixels[k / 4].3
            },
    )
}

impl RasterImage {
    /// Makes an image of `width` by `height` pixels from samples in the
    /// order red, green, blue, alpha, pixel after pixel in row-major order.
    /// Samples beyond the last pixel are kept but belong to no pixel. There
    /// is no image where the samples are too few, nor where four times the
    /// width is beyond `usize`.
    pub fn from_raw(width: u32, height: u32, samples: Vec<u8>) -> (made: Option<RasterImage>)
        ensures
            made is Some <==> makes_image(width as nat, height as nat, samples@.len()),
            made matches Some(img) ==> self::width(img) == width && self::height(img) == height
                && pixels(img) == grouped(samples@, (width * height) as nat) && spare(img)
                == samples@.skip(4 * width * height),
    {
        with_container(width, height, samples)
    }

    /// Gives up the image for its samples: four for each pixel in row-major
    /// order, and after them what `from_raw` was given beyond the last pixel.
    pub fn into_raw(self) -> (samples: Vec<u8>)
        ensures
            samples@ == flat(pixels(self)) + spare(self),
    {
        container_of(self)
    }

    /// The width in pixels.
    pub fn width(&self) -> (w: u32)
        ensures
            w == self::width(*self),
    {
        dimensions(self).0
    }

    /// The height in pixels.
    pub fn height(&self) -> (h: u32)
        ensures
            h == self::height(*self),
    {
        dimensions(self).1
    }

    /// The pixel in column `x` of row `y`, if the image has one there.
    pub fn pixel(&self, x: u32, y: u32) -> (found: Option<(u8, u8, u8, u8)>)
        ensures
            found is Some <==> x < self::width(*self) && y < self::height(*self),
            found matches Some(p) ==> p == pixels(*self)[position(*self, x as nat, y as nat)],
    {
        let (w, h) = dimensions(self);
        if x < w && y < h {
            Some(pixel_at(self, x, y))
        } else {
            None
        }
    }
}

/// Calls `ImageBuffer::from_raw`, which reckons in `usize` four times the
/// width and then that times the height, returns `None` where either is
/// beyond `usize` or the container holds fewer samples, and else keeps the
/// container as it is. Pixel `i` of the buffer is made of the four samples
/// from `4 * i` on.
#[verifier::external_body]
fn with_container(width: u32, height: u32, samples: Vec<u8>) -> (made: Option<RasterImage>)
    ensures
        made is Some <==> makes_image(width as nat, height as nat, samples@.len()),
        made matches Some(img) ==> self::width(img) == width && self::height(img) == height
            && pixels(img) == grouped(samples@, (width * height) as nat) && spare(img)
            == samples@.skip(4 * width * height),
{
    image::RgbaImage::from_raw(width, height, samples).map(|buffer| RasterImage { buffer })
}

/// Calls `ImageBuffer::into_raw`, which returns the container that the
/// buffer was made with, its samples as `put_pixel` left them: the four
/// samples of each pixel in turn, and then those that belong to no pixel.
#[verifier::external_body]
fn container_of(img: RasterImage) -> (samples: Vec<u8>)
    ensures
        samples@ == flat(pixels(img)) + spare(img),
{
    img.buffer.into_raw()
}

/// Calls `ImageBuffer::dimensions`, which returns the buffer's width and
/// height. The buffer holds one pixel for each position within them: every
/// constructor of the buffer checks that its container is long enough.
#[verifier::external_body]
pub(crate) fn dimensions(img: &RasterImage) -> (size: (u32, u32))
    ensures
        size.0 == width(*img),
        size.1 == height(*img),
        size.0 * size.1 == pixels(*img).len(),
{
    img.buffer.dimensions()
}

/// Calls `ImageBuffer::clone`, which copies the whole container and the
/// dimensions.
#[verifier::external_body]
pub(crate) fn duplicate(img: &RasterImage) -> (copy: RasterImage)
    ensures
        width(copy) == width(*img),
        height(copy) == height(*img),
        pixels(copy) == pixels(*img),
        spare(copy) == spare(*img),
{
    RasterImage { buffer: img.buffer.clone() }
}

/// Calls `ImageBuffer::get_pixel`, which returns the four samples of the
/// pixel at `(x, y)` and panics outside the image.
#[verifier::external_body]
pub(crate) fn pixel_at(img: &RasterImage, x: u32, y: u32) -> (p: (u8, u8, u8, u8))
    requires
        x < width(*img),
        y < height(*img),
    ensures
        p == pixels(*img)[position(*img, x as nat, y as nat)],
{
    let image::Rgba([r, g, b, a]) = *img.buffer.get_pixel(x, y);
    (r, g, b, a)
}

/// The greatest side, in pixels, up to which resampling reckons every pixel
/// coordinate exactly: 2^24.
pub const RESAMPLING_SIDE_LIMIT: u32 = 0x100_0000;

/// Whether an image of `width` by `height` pixels can be resampled to
/// `new_width` by `new_height`. The buffers that resampling allocates, one
/// of four 32-bit samples for each pixel of `width` by `new_height` and one
/// of four bytes for each pixel of the result, are no larger than a vector
/// can be; and where the result has a pixel at all, no side is beyond the
/// limit up to which the weights of the filter are known not to cancel.
pub open spec fn can_resample(width: nat, height: nat, new_width: nat, new_height: nat) -> bool {
    &&& 16 * (width * new_height) <= isize::MAX
    &&& 4 * (new_width * new_height) <= isize::MAX
    &&& new_width == 0 || new_height == 0 || {
        &&& width <= RESAMPLING_SIDE_LIMIT
        &&& height <= RESAMPLING_SIDE_LIMIT
        &&& new_width <= RESAMPLING_SIDE_LIMIT
        &&& new_height <= RESAMPLING_SIDE_LIMIT
    }
}

/// Calls `image::imageops::resize` with `FilterType::Lanczos3`, which
/// returns a new buffer of the width and height asked for, in a container
/// of just its pixels. It samples first the columns into a buffer of
/// `width` by `new_height` pixels of four 32-bit samples, then the rows into
/// the result, and panics where one of the two is larger than a vector can
/// be, or where the weights for a pixel of the result add up to nothing.
/// Nothing is said of the pixels: they come from sines that differ between
/// platforms.
#[verifier::external_body]
pub(crate) fn resampled(img: &RasterImage, new_width: u32, new_height: u32) -> (out: RasterImage)
    requires
        can_resample(width(*img), height(*img), new_width as nat, new_height as nat),
    ensures
        width(out) == new_width,
        height(out) == new_height,
        spare(out).len() == 0,
{
    let filter = image::imageops::FilterType::Lanczos3;
    RasterImage { buffer: image::imageops::resize(&img.buffer, new_width, new_height, filter) }
}

/// Calls `ImageBuffer::put_pixel`, which overwrites the four samples of the
/// pixel at `(x, y)`, leaves everything else as it was, and panics outside
/// the image.
#[verifier::external_body]
pub(crate) fn set_pixel(img: &mut RasterImage, x: u32, y: u32, p: (u8, u8, u8, u8))
    requires
        x < width(*old(img)),
        y < height(*old(img)),
    ensures
        width(*final(img)) == width(*old(img)),
        height(*final(img)) == height(*old(img)),
        pixels(*final(img)) == pixels(*old(img)).update(
            position(*old(img), x as nat, y as nat),
            p,
        ),
        spare(*final(img)) == spare(*old(img)),
{
    img.buffer.put_pixel(x, y, image::Rgba([p.0, p.1, p.2, p.3]));
}

} // verus!
