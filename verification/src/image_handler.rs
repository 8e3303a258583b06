//! What is computed on the way of an image to the screen: the size that
//! fits a limit, and the samples without alpha.

use vstd::prelude::*;
use crate::raster::{
    RESAMPLING_SIDE_LIMIT, RasterImage, can_resample, dimensions, height,
    lemma_position_in_image, pixel_at, pixels, resampled, spare, width,
};
use crate::single::{
    ONE, lemma_nearest_half_spacing, lemma_spacing_divides, lemma_spacing_under,
    lemma_whole_exact, multiple, multiple_of, nearest, power_of_two, quotient, quotient_of,
    spacing, truncated, whole, whole_of,
};

verus! {

/// The samples of a run of pixels without their alpha: red, green and blue
/// of each pixel in turn.
pub open spec fn rgb_of(pixels: Seq<(u8, u8, u8, u8)>) -> Seq<u8> {
    Seq::new(
        3 * pixels.len(),
        |k: int|
            if k % 3 == 0 {
                pixels[k / 3].0
            } else if k % 3 == 1 {
                pixels[k / 3].1
            } else {
                pixels[k / 3].2
            },
    )
}

/// Whether an image of `width` by `height` pixels lies within the limits.
pub open spec fn within(width: nat, height: nat, max_width: nat, max_height: nat) -> bool {
    width <= max_width && height <= max_height
}

/// The factor that brings a side of `side` pixels to `limit`, in binary32;
/// none for a side of no pixels.
pub open spec fn factor(limit: nat, side: nat) -> Option<nat> {
    if side == 0 {
        None
    } else {
        Some(quotient(whole(limit), whole(side)))
    }
}

/// The smaller of two factors, where there are two; the one there is, where
/// there is one.
pub open spec fn smaller(a: Option<nat>, b: Option<nat>) -> Option<nat> {
    match (a, b) {
        (None, _) => b,
        (_, None) => a,
        (Some(x), Some(y)) => Some(
            if x <= y {
                x
            } else {
                y
            },
        ),
    }
}

/// A side of `side` pixels taken by a factor, in binary32, truncated, and
/// no more than the greatest 32-bit number; nothing where there is no factor.
pub open spec fn scaled_side(side: nat, by: Option<nat>) -> nat {
    match by {
        None => 0,
        Some(by) => {
            let length = truncated(multiple(by, whole(side)));
            if length > u32::MAX {
                u32::MAX as nat
            } else {
                length
            }
        },
    }
}

/// The factor by which an image of `width` by `height` pixels is brought
/// to fit the limits: the smaller of the two that bring width and height to
/// their limits.
pub open spec fn fitting_factor(width: nat, height: nat, max_width: nat, max_height: nat)
    -> Option<nat> {
    smaller(factor(max_width, width), factor(max_height, height))
}

/// The size to which an image of `width` by `height` pixels is brought to
/// fit the limits: both sides taken by the one factor that fits.
pub open spec fn fitted(width: nat, height: nat, max_width: nat, max_height: nat) -> (nat, nat) {
    let by = fitting_factor(width, height, max_width, max_height);
    (scaled_side(width, by), scaled_side(height, by))
}

/// Whether `length` pixels are `side` pixels taken by the factor `by`, give
/// or take a pixel and a half: at most half a pixel above it, less than a
/// pixel and a half below.
pub open spec fn about_scaled(length: nat, side: nat, by: nat) -> bool {
    &&& 2 * (length * 0x100_0000_0000_0000) <= 2 * (by * side) + 0x100_0000_0000_0000
    &&& 2 * (by * side) < 2 * (length * 0x100_0000_0000_0000) + 3 * 0x100_0000_0000_0000
}

/// The factor that brings a side of at most 2^24 pixels to a smaller limit
/// is less than one, and the side taken by it is less than half a pixel
/// above the limit.
proof fn lemma_factor_below_one(limit: nat, side: nat)
    requires
        limit < side <= 0x100_0000,
    ensures
        quotient(whole(limit), whole(side)) < 0x100_0000_0000_0000,
        2 * (quotient(whole(limit), whole(side)) * side) < 2 * limit * 0x100_0000_0000_0000
            + 0x100_0000_0000_0000,
{
    let f = quotient(limit, side);
    let num = limit * (ONE as nat);
    let q = spacing(num / side);
    let taken = f * side;
    lemma_whole_exact(limit);
    lemma_whole_exact(side);
    assert(num == limit * 0x100_0000_0000_0000) by (nonlinear_arith)
        requires
            num == limit * (ONE as nat),
            ONE == 0x100_0000_0000_0000,
    ;
    assert(num / side < 0x1_0000_0000 * 0x100_0000) by (nonlinear_arith)
        requires
            num == limit * 0x100_0000_0000_0000,
            limit < side,
    ;
    assert(power_of_two(0x1_0000_0000)) by {
        reveal_with_fuel(power_of_two, 34);
    }
    if side < 0x100_0000 {
        lemma_nearest_half_spacing(num, side);
        lemma_spacing_under(num / side, 0x1_0000_0000);
        assert(q * side < 0x100_0000_0000_0000) by (nonlinear_arith)
            requires
                q <= 0x1_0000_0000,
                side < 0x100_0000,
        ;
    } else {
        // A side of 2^24 pixels divides the limit without rounding.
        lemma_spacing_divides(num / side, 0x1_0000_0000);
        let m = 0x1_0000_0000nat / q;
        let step = q * side;
        let steps = limit * m;
        assert(num == steps * step && step > 0) by (nonlinear_arith)
            requires
                num == limit * 0x100_0000_0000_0000,
                0x1_0000_0000 == m * q,
                step == q * side,
                steps == limit * m,
                side == 0x100_0000,
        ;
        assert(num / step == steps && num % step == 0) by (nonlinear_arith)
            requires
                num == steps * step,
                step > 0,
        ;
        assert(taken == num) by (nonlinear_arith)
            requires
                taken == f * side,
                f == steps * q,
                step == q * side,
                num == steps * step,
        ;
    }
    assert(2 * taken < 2 * limit * 0x100_0000_0000_0000 + 0x100_0000_0000_0000);
    assert(f < 0x100_0000_0000_0000) by (nonlinear_arith)
        requires
            taken == f * side,
            2 * taken < 2 * limit * 0x100_0000_0000_0000 + 0x100_0000_0000_0000,
            limit < side,
    ;
}

/// A value below 2^24 pixels and less than half a pixel above `most`
/// pixels is `most` pixels at most once rounded and truncated.
proof fn lemma_rounded_side(value: nat, most: nat)
    requires
        value < 0x1_0000_0000_0000_0000_0000,
        2 * value < 2 * most * 0x100_0000_0000_0000 + 0x100_0000_0000_0000,
    ensures
        truncated(nearest(value, 1)) <= most,
{
    let r = nearest(value, 1);
    lemma_nearest_half_spacing(value, 1);
    assert(power_of_two(0x100_0000_0000_0000)) by {
        reveal_with_fuel(power_of_two, 58);
    }
    assert(value / 1 == value);
    lemma_spacing_under(value, 0x100_0000_0000_0000);
    assert(r * 1 == r && spacing(value) * 1 == spacing(value)) by (nonlinear_arith);
    assert(r < (most + 1) * 0x100_0000_0000_0000);
    assert(ONE == 0x100_0000_0000_0000);
}

/// A side of at most 2^24 pixels, taken by a factor that is at most the
/// one that brings it to a smaller limit, is within that limit.
proof fn lemma_scaled_to_limit(side: nat, limit: nat, by: nat)
    requires
        limit < side <= 0x100_0000,
        by <= quotient(whole(limit), whole(side)),
    ensures
        scaled_side(side, Some(by)) <= limit,
{
    let f = quotient(whole(limit), whole(side));
    lemma_factor_below_one(limit, side);
    lemma_whole_exact(side);
    assert(by * side <= f * side) by (nonlinear_arith)
        requires
            by <= f,
    ;
    lemma_rounded_side(by * side, limit);
}

/// A side of at most 2^24 pixels, taken by a factor of less than one, is
/// no longer than it was.
proof fn lemma_scaled_down(side: nat, by: nat)
    requires
        side <= 0x100_0000,
        by < 0x100_0000_0000_0000,
    ensures
        scaled_side(side, Some(by)) <= side,
{
    lemma_whole_exact(side);
    assert(by * side <= 0xff_ffff_ffff_ffff * side) by (nonlinear_arith)
        requires
            by <= 0xff_ffff_ffff_ffff,
    ;
    lemma_rounded_side(by * side, side);
}

/// A side of at most 2^24 pixels, taken by a factor of less than one, comes
/// out as the exact product, give or take a pixel and a half.
proof fn lemma_scaled_about(side: nat, by: nat)
    requires
        side <= 0x100_0000,
        by < 0x100_0000_0000_0000,
    ensures
        about_scaled(scaled_side(side, Some(by)), side, by),
{
    let value = by * side;
    let r = nearest(value, 1);
    lemma_scaled_down(side, by);
    lemma_whole_exact(side);
    assert(value <= 0xff_ffff_ffff_ffff * side) by (nonlinear_arith)
        requires
            value == by * side,
            by <= 0xff_ffff_ffff_ffff,
    ;
    lemma_nearest_half_spacing(value, 1);
    assert(power_of_two(0x100_0000_0000_0000)) by {
        reveal_with_fuel(power_of_two, 58);
    }
    assert(value / 1 == value);
    lemma_spacing_under(value, 0x100_0000_0000_0000);
    assert(r * 1 == r && spacing(value) * 1 == spacing(value)) by (nonlinear_arith);
    assert(ONE == 0x100_0000_0000_0000);
    let length = truncated(r);
    assert(length * 0x100_0000_0000_0000 <= r < length * 0x100_0000_0000_0000
        + 0x100_0000_0000_0000);
}

/// An image with sides of at most 2^24 pixels that is beyond the limits
/// keeps its proportions: there is one factor, less than one, by which both
/// sides are taken, each give or take a pixel and a half.
pub proof fn lemma_fitted_keeps_proportions(
    width: nat,
    height: nat,
    max_width: nat,
    max_height: nat,
)
    requires
        width <= 0x100_0000,
        height <= 0x100_0000,
        !within(width, height, max_width, max_height),
    ensures
        fitting_factor(width, height, max_width, max_height) matches Some(by) && by
            < 0x100_0000_0000_0000 && about_scaled(
            fitted(width, height, max_width, max_height).0,
            width,
            by,
        ) && about_scaled(fitted(width, height, max_width, max_height).1, height, by),
{
    let by = fitting_factor(width, height, max_width, max_height);
    if width > max_width {
        lemma_factor_below_one(max_width, width);
    }
    if height > max_height {
        lemma_factor_below_one(max_height, height);
    }
    assert(by is Some && by->0 < 0x100_0000_0000_0000);
    lemma_scaled_about(width, by->0);
    lemma_scaled_about(height, by->0);
}

/// An image with sides of at most 2^24 pixels that is beyond the limits is
/// brought within them: neither side of the size that fits is beyond its
/// limit.
pub proof fn lemma_fitted_within_limits(width: nat, height: nat, max_width: nat, max_height: nat)
    requires
        width <= 0x100_0000,
        height <= 0x100_0000,
        !within(width, height, max_width, max_height),
    ensures
        fitted(width, height, max_width, max_height).0 <= max_width,
        fitted(width, height, max_width, max_height).1 <= max_height,
{
    let by = fitting_factor(width, height, max_width, max_height);
    if width > max_width {
        lemma_factor_below_one(max_width, width);
    }
    if height > max_height {
        lemma_factor_below_one(max_height, height);
    }
    // The smaller factor is less than one: that of a side beyond its limit is.
    assert(by is Some && by->0 < 0x100_0000_0000_0000);
    if width > max_width {
        lemma_scaled_to_limit(width, max_width, by->0);
    } else {
        lemma_scaled_down(width, by->0);
    }
    if height > max_height {
        lemma_scaled_to_limit(height, max_height, by->0);
    } else {
        lemma_scaled_down(height, by->0);
    }
}

/// Computes the factor that brings a side to its limit.
fn factor_of(limit: u32, side: u32) -> (by: Option<u128>)
    ensures
        by matches Some(f) ==> factor(limit as nat, side as nat) == Some(f as nat) && f
            <= crate::single::MULTIPLE_LIMIT,
        by is None ==> factor(limit as nat, side as nat) is None,
{
    if side == 0 {
        return None;
    }
    let above: u64 = whole_of(limit);
    let below: u64 = whole_of(side);
    proof {
        lemma_whole_positive(side as nat);
    }
    Some(quotient_of(above, below))
}

/// A whole number of at least one rounds to at least one.
proof fn lemma_whole_positive(n: nat)
    requires
        n >= 1,
    ensures
        whole(n) >= 1,
{
    let q = crate::single::spacing(n);
    crate::single::lemma_spacing_bounds(n);
    assert(q * 1 == q) by (nonlinear_arith);
    let k = n / q;
    assert(k >= 1) by (nonlinear_arith)
        requires
            k == n / q,
            q >= 1,
            q <= n,
    ;
    assert(k * q >= 1) by (nonlinear_arith)
        requires
            k >= 1,
            q >= 1,
    ;
    assert((k + 1) * q >= 1) by (nonlinear_arith)
        requires
            k >= 1,
            q >= 1,
    ;
}

/// Takes a side by a factor.
fn scaled_side_of(side: u32, by: Option<u128>) -> (length: u32)
    requires
        by matches Some(f) ==> f <= crate::single::MULTIPLE_LIMIT,
    ensures
        length == scaled_side(
            side as nat,
            match by {
                Some(f) => Some(f as nat),
                None => None,
            },
        ),
{
    match by {
        None => 0,
        Some(f) => {
            let length: u128 = multiple_of(f, whole_of(side)) / ONE;
            if length > u32::MAX as u128 {
                u32::MAX
            } else {
                length as u32
            }
        },
    }
}

/// Computes the size to which an image is brought to fit the limits. For
/// an image beyond the limits with sides of at most 2^24 pixels it is
/// within the limits.
pub fn fitted_size(width: u32, height: u32, max_width: u32, max_height: u32) -> (size: (u32, u32))
    ensures
        size.0 == fitted(width as nat, height as nat, max_width as nat, max_height as nat).0,
        size.1 == fitted(width as nat, height as nat, max_width as nat, max_height as nat).1,
        width <= RESAMPLING_SIDE_LIMIT && height <= RESAMPLING_SIDE_LIMIT && !within(
            width as nat,
            height as nat,
            max_width as nat,
            max_height as nat,
        ) ==> size.0 <= max_width && size.1 <= max_height,
{
    proof {
        if width <= RESAMPLING_SIDE_LIMIT && height <= RESAMPLING_SIDE_LIMIT && !within(
            width as nat,
            height as nat,
            max_width as nat,
            max_height as nat,
        ) {
            lemma_fitted_within_limits(
                width as nat,
                height as nat,
                max_width as nat,
                max_height as nat,
            );
        }
    }
    let across = factor_of(max_width, width);
    let down = factor_of(max_height, height);
    let by = match (across, down) {
        (None, _) => down,
        (_, None) => across,
        (Some(x), Some(y)) => Some(
            if x <= y {
                x
            } else {
                y
            },
        ),
    };
    (scaled_side_of(width, by), scaled_side_of(height, by))
}

/// Whether an image can be resampled from one size to another.
fn can_resample_sizes(width: u32, height: u32, new_width: u32, new_height: u32) -> (yes: bool)
    ensures
        yes == can_resample(width as nat, height as nat, new_width as nat, new_height as nat),
{
    proof {
        assert(width * new_height <= 0x1_0000_0000 * 0x1_0000_0000) by (nonlinear_arith)
            requires
                width <= 0x1_0000_0000,
                new_height <= 0x1_0000_0000,
        ;
        assert(new_width * new_height <= 0x1_0000_0000 * 0x1_0000_0000) by (nonlinear_arith)
            requires
                new_width <= 0x1_0000_0000,
                new_height <= 0x1_0000_0000,
        ;
    }
    let columns: u128 = 16 * (width as u128 * new_height as u128);
    let result: u128 = 4 * (new_width as u128 * new_height as u128);
    let most: u128 = isize::MAX as u128;
    let within_sides: bool = width <= RESAMPLING_SIDE_LIMIT && height <= RESAMPLING_SIDE_LIMIT
        && new_width <= RESAMPLING_SIDE_LIMIT && new_height <= RESAMPLING_SIDE_LIMIT;
    columns <= most && result <= most && (new_width == 0 || new_height == 0 || within_sides)
}

/// Whether an image lies within the limits.
pub open spec fn fits(img: RasterImage, max_width: u32, max_height: u32) -> bool {
    within(width(img), height(img), max_width as nat, max_height as nat)
}

/// The size to which an image is brought to fit the limits.
pub open spec fn target(img: RasterImage, max_width: u32, max_height: u32) -> (nat, nat) {
    fitted(width(img), height(img), max_width as nat, max_height as nat)
}

/// Whether an image can be resampled to the size that fits the limits.
pub open spec fn resizable(img: RasterImage, max_width: u32, max_height: u32) -> bool {
    can_resample(
        width(img),
        height(img),
        target(img, max_width, max_height).0,
        target(img, max_width, max_height).1,
    )
}

/// Whether `out` is what bringing `img` within the limits gives: `img`
/// itself where it fits, and otherwise an image of the size that fits, in a
/// container of just its pixels. Of an image with sides of at most 2^24
/// pixels it lies within the limits.
pub open spec fn brought_within(
    out: RasterImage,
    img: RasterImage,
    max_width: u32,
    max_height: u32,
) -> bool {
    if fits(img, max_width, max_height) {
        out == img
    } else {
        &&& width(out) == target(img, max_width, max_height).0
        &&& height(out) == target(img, max_width, max_height).1
        &&& spare(out).len() == 0
        &&& width(img) <= RESAMPLING_SIDE_LIMIT && height(img) <= RESAMPLING_SIDE_LIMIT ==> fits(
            out,
            max_width,
            max_height,
        )
    }
}

/// Brings an image within the limits. An image within them is returned as
/// it is; any other is resampled to the size that fits.
pub fn resize_if_needed(img: RasterImage, max_width: u32, max_height: u32) -> (out: RasterImage)
    requires
        fits(img, max_width, max_height) || resizable(img, max_width, max_height),
    ensures
        brought_within(out, img, max_width, max_height),
{
    let (width, height) = dimensions(&img);
    if width <= max_width && height <= max_height {
        return img;
    }
    let (new_width, new_height) = fitted_size(width, height, max_width, max_height);
    resampled(&img, new_width, new_height)
}

/// Brings an image within the limits, where that can be done: `Ok` with
/// what `resize_if_needed` returns, or `Err` with the image as it was, where
/// it is beyond the limits and cannot be resampled to the size that fits.
pub fn resize_if_possible(img: RasterImage, max_width: u32, max_height: u32) -> (out: Result<
    RasterImage,
    RasterImage,
>)
    ensures
        out is Ok <==> fits(img, max_width, max_height) || resizable(img, max_width, max_height),
        out matches Ok(fit) ==> brought_within(fit, img, max_width, max_height),
        out matches Err(same) ==> same == img,
{
    let (width, height) = dimensions(&img);
    if width <= max_width && height <= max_height {
        return Ok(img);
    }
    let (new_width, new_height) = fitted_size(width, height, max_width, max_height);
    if can_resample_sizes(width, height, new_width, new_height) {
        Ok(resize_if_needed(img, max_width, max_height))
    } else {
        Err(img)
    }
}

/// The samples of an image without alpha: red, green and blue of each
/// pixel, row after row.
pub fn rgb_samples(img: &RasterImage) -> (samples: Vec<u8>)
    ensures
        samples@ == rgb_of(pixels(*img)),
{
    let (w, h) = dimensions(img);
    let mut samples: Vec<u8> = Vec::new();
    let ghost all = pixels(*img);
    let mut y: u32 = 0;
    while y < h
        invariant
            y <= h,
            w == width(*img),
            h == height(*img),
            all == pixels(*img),
            all.len() == w * h,
            samples@ == rgb_of(all.take(y * w)),
        decreases h - y,
    {
        let mut x: u32 = 0;
        while x < w
            invariant
                x <= w,
                y < h,
                w == width(*img),
                h == height(*img),
                all == pixels(*img),
                all.len() == w * h,
                samples@ == rgb_of(all.take(y * w + x)),
            decreases w - x,
        {
            proof {
                lemma_position_in_image(x as nat, y as nat, w as nat, h as nat);
            }
            let p = pixel_at(img, x, y);
            samples.push(p.0);
            samples.push(p.1);
            samples.push(p.2);
            proof {
                let n = y * w + x;
                assert(all.take(n + 1) =~= all.take(n).push(p));
                assert(samples@ =~= rgb_of(all.take(n + 1)));
            }
            x = x + 1;
        }
        proof {
            assert((y + 1) * w == y * w + w) by (nonlinear_arith);
        }
        y = y + 1;
    }
    proof {
        assert(all.take(h * w) =~= all) by {
            assert(h * w == w * h) by (nonlinear_arith);
        }
    }
    samples
}

} // verus!
