//! Simulation of colour-vision deficiencies on single colours.
//!
//! The dichromacy matrices, the anomaly blend and the luminance weights are
//! evaluated in binary32 arithmetic and truncated, so every channel is a
//! fixed function of the input bytes, stated here over `crate::single`.

use vstd::prelude::*;
use crate::color_parser::same_text;
use crate::raster::{
    RasterImage, dimensions, duplicate, height, lemma_position_in_image, pixel_at, pixels,
    position, set_pixel, spare, width,
};
use crate::single::{
    ONE, SIGNIFICANDS, difference, difference_of, grains, lemma_nearest_error,
    lemma_quotient_error, lemma_whole_error, multiple, multiple_of, nearest, ones, product,
    product_of, quotient, quotient_of, sum, sum_of, truncated,
};

verus! {

/// The kinds of colour vision that can be simulated.
#[derive(Debug, Clone, Copy, PartialEq, Eq, Structural)]
pub enum ColorBlindnessType {
    /// Unimpaired vision.
    Normal,
    /// No response of the long-wavelength cones (red-blind).
    Protanopia,
    /// No response of the medium-wavelength cones (green-blind).
    Deuteranopia,
    /// No response of the short-wavelength cones (blue-blind).
    Tritanopia,
    /// Weakened long-wavelength response (red-weak).
    Protanomaly,
    /// Weakened medium-wavelength response (green-weak).
    Deuteranomaly,
    /// Weakened short-wavelength response (blue-weak).
    Tritanomaly,
    /// No colour discrimination at all.
    Achromatopsia,
}

/// The kind of vision that a label names; unimpaired vision for a text that
/// is not one of the seven labels.
pub open spec fn kind_of_label(label: Seq<char>) -> ColorBlindnessType {
    if label == "Protanopia (Red-Blind)"@ {
        ColorBlindnessType::Protanopia
    } else if label == "Deuteranopia (Green-Blind)"@ {
        ColorBlindnessType::Deuteranopia
    } else if label == "Tritanopia (Blue-Blind)"@ {
        ColorBlindnessType::Tritanopia
    } else if label == "Protanomaly"@ {
        ColorBlindnessType::Protanomaly
    } else if label == "Deuteranomaly"@ {
        ColorBlindnessType::Deuteranomaly
    } else if label == "Tritanomaly"@ {
        ColorBlindnessType::Tritanomaly
    } else if label == "Achromatopsia"@ {
        ColorBlindnessType::Achromatopsia
    } else {
        ColorBlindnessType::Normal
    }
}

impl ColorBlindnessType {
    /// The kind of vision that a label names; unimpaired vision for a text
    /// that is not one of the seven labels.
    pub fn from_label(label: &str) -> (kind: ColorBlindnessType)
        ensures
            kind == kind_of_label(label@),
    {
        if same_text(label, "Protanopia (Red-Blind)") {
            ColorBlindnessType::Protanopia
        } else if same_text(label, "Deuteranopia (Green-Blind)") {
            ColorBlindnessType::Deuteranopia
        } else if same_text(label, "Tritanopia (Blue-Blind)") {
            ColorBlindnessType::Tritanopia
        } else if same_text(label, "Protanomaly") {
            ColorBlindnessType::Protanomaly
        } else if same_text(label, "Deuteranomaly") {
            ColorBlindnessType::Deuteranomaly
        } else if same_text(label, "Tritanomaly") {
            ColorBlindnessType::Tritanomaly
        } else if same_text(label, "Achromatopsia") {
            ColorBlindnessType::Achromatopsia
        } else {
            ColorBlindnessType::Normal
        }
    }
}

/// Share of the simulated colour in an anomaly blend, in thousandths.
pub const ANOMALY_WEIGHT: u16 = 600;

/// One row of a dichromacy matrix applied to two channels, as a value in
/// units: the channels are brought to the range from zero to one, weighted
/// by `w1` and `w2` thousandths and added, and the sum is taken 255 times.
pub open spec fn matrix_row_value(w1: nat, a: u8, w2: nat, b: u8) -> nat {
    let mixed = sum(
        product(quotient(w1, 1000), quotient(a as nat, 255)),
        product(quotient(w2, 1000), quotient(b as nat, 255)),
    );
    multiple(mixed, 255)
}

/// One row of a dichromacy matrix applied to two channels: its value,
/// limited to 255 and truncated.
pub open spec fn matrix_row(w1: nat, a: u8, w2: nat, b: u8) -> nat {
    let full = matrix_row_value(w1, a, w2, b);
    truncated(if full > 255 * ONE { (255 * ONE) as nat } else { full })
}

/// The colour seen without long-wavelength cones.
pub open spec fn protanopia(r: u8, g: u8, b: u8) -> (nat, nat, nat) {
    (matrix_row(567, r, 433, g), matrix_row(558, r, 442, g), matrix_row(242, g, 758, b))
}

/// The colour seen without medium-wavelength cones.
pub open spec fn deuteranopia(r: u8, g: u8, b: u8) -> (nat, nat, nat) {
    (matrix_row(625, r, 375, g), matrix_row(700, r, 300, g), matrix_row(300, g, 700, b))
}

/// The colour seen without short-wavelength cones.
pub open spec fn tritanopia(r: u8, g: u8, b: u8) -> (nat, nat, nat) {
    (matrix_row(950, r, 50, g), matrix_row(433, g, 567, b), matrix_row(475, g, 525, b))
}

/// A channel of an original colour and of its simulation, blended with
/// `weight` thousandths of the simulation and the rest of the original, as
/// a value in units. It is meant for weights up to a thousand.
pub open spec fn blended_value(original: nat, simulated: nat, weight: nat) -> nat {
    let share = quotient(weight, 1000);
    let rest = difference(ONE as nat, share);
    sum(multiple(rest, original), multiple(share, simulated))
}

/// A channel of a blend: its value truncated; never above 255.
pub open spec fn blended(original: nat, simulated: nat, weight: nat) -> nat {
    let mixed = truncated(blended_value(original, simulated, weight));
    if mixed > 255 {
        255
    } else {
        mixed
    }
}

/// The blend of a colour with its simulation, channel by channel.
pub open spec fn blend(
    original: (nat, nat, nat),
    simulated: (nat, nat, nat),
    weight: nat,
) -> (nat, nat, nat) {
    (
        blended(original.0, simulated.0, weight),
        blended(original.1, simulated.1, weight),
        blended(original.2, simulated.2, weight),
    )
}

/// The luminance of a colour as a value in units: 299, 587 and 114
/// thousandths of red, green and blue, added in that order.
pub open spec fn luminance_value(r: u8, g: u8, b: u8) -> nat {
    sum(
        sum(multiple(quotient(299, 1000), r as nat), multiple(quotient(587, 1000), g as nat)),
        multiple(quotient(114, 1000), b as nat),
    )
}

/// The luminance of a colour: its value truncated; never above 255.
pub open spec fn luminance(r: u8, g: u8, b: u8) -> nat {
    let gray = truncated(luminance_value(r, g, b));
    if gray > 255 {
        255
    } else {
        gray
    }
}

/// The channels of a colour as naturals.
pub open spec fn channels(r: u8, g: u8, b: u8) -> (nat, nat, nat) {
    (r as nat, g as nat, b as nat)
}

/// What a colour looks like under the given kind of vision, as three
/// channel values.
pub open spec fn appearance(r: u8, g: u8, b: u8, kind: ColorBlindnessType) -> (nat, nat, nat) {
    match kind {
        ColorBlindnessType::Normal => channels(r, g, b),
        ColorBlindnessType::Protanopia => protanopia(r, g, b),
        ColorBlindnessType::Deuteranopia => deuteranopia(r, g, b),
        ColorBlindnessType::Tritanopia => tritanopia(r, g, b),
        ColorBlindnessType::Protanomaly => blend(
            channels(r, g, b),
            protanopia(r, g, b),
            ANOMALY_WEIGHT as nat,
        ),
        ColorBlindnessType::Deuteranomaly => blend(
            channels(r, g, b),
            deuteranopia(r, g, b),
            ANOMALY_WEIGHT as nat,
        ),
        ColorBlindnessType::Tritanomaly => blend(
            channels(r, g, b),
            tritanopia(r, g, b),
            ANOMALY_WEIGHT as nat,
        ),
        ColorBlindnessType::Achromatopsia => (
            luminance(r, g, b),
            luminance(r, g, b),
            luminance(r, g, b),
        ),
    }
}

/// What a colour looks like under the given kind of vision, as a colour.
pub open spec fn simulated(r: u8, g: u8, b: u8, kind: ColorBlindnessType) -> (u8, u8, u8) {
    let seen = appearance(r, g, b, kind);
    (seen.0 as u8, seen.1 as u8, seen.2 as u8)
}

/// A pixel with its colour simulated and its alpha kept.
pub open spec fn recolored(p: (u8, u8, u8, u8), kind: ColorBlindnessType) -> (u8, u8, u8, u8) {
    let seen = simulated(p.0, p.1, p.2, kind);
    (seen.0, seen.1, seen.2, p.3)
}

/// Whether an executable colour holds exactly the given channel values.
pub open spec fn shows(color: (u8, u8, u8), values: (nat, nat, nat)) -> bool {
    color.0 == values.0 && color.1 == values.1 && color.2 == values.2
}

/// Unimpaired vision leaves every colour as it is.
pub proof fn lemma_normal_is_identity(r: u8, g: u8, b: u8)
    ensures
        simulated(r, g, b, ColorBlindnessType::Normal) == (r, g, b),
{
}

/// Without colour discrimination the three channels are equal.
pub proof fn lemma_achromatopsia_is_gray(r: u8, g: u8, b: u8)
    ensures
        simulated(r, g, b, ColorBlindnessType::Achromatopsia).0 == simulated(
            r,
            g,
            b,
            ColorBlindnessType::Achromatopsia,
        ).1,
        simulated(r, g, b, ColorBlindnessType::Achromatopsia).1 == simulated(
            r,
            g,
            b,
            ColorBlindnessType::Achromatopsia,
        ).2,
{
}

/// Under every kind of vision each channel of every colour is at most 255,
/// so that no channel of `simulated` is cut to fit a byte.
pub proof fn lemma_appearance_in_range(r: u8, g: u8, b: u8, kind: ColorBlindnessType)
    ensures
        appearance(r, g, b, kind).0 <= 255,
        appearance(r, g, b, kind).1 <= 255,
        appearance(r, g, b, kind).2 <= 255,
        shows(simulated(r, g, b, kind), appearance(r, g, b, kind)),
{
}

/// The exact value of a row of a dichromacy matrix, truncated: the
/// channels weighted by `w1` and `w2` thousandths and added.
pub open spec fn exact_row(w1: nat, a: u8, w2: nat, b: u8) -> nat {
    ((w1 * a + w2 * b) / 1000) as nat
}

/// The exact value of a blend, truncated: `weight` thousandths of the
/// simulated channel and the rest of the original one.
pub open spec fn exact_blend(original: nat, simulated: nat, weight: nat) -> nat {
    (((1000 - weight) * original + weight * simulated) / 1000) as nat
}

/// The exact luminance of a colour, truncated.
pub open spec fn exact_luminance(r: u8, g: u8, b: u8) -> nat {
    ((299 * r + 587 * g + 114 * b) / 1000) as nat
}

/// The colour seen without long-wavelength cones, in exact arithmetic,
/// truncated.
pub open spec fn exact_protanopia(r: u8, g: u8, b: u8) -> (nat, nat, nat) {
    (exact_row(567, r, 433, g), exact_row(558, r, 442, g), exact_row(242, g, 758, b))
}

/// The colour seen without medium-wavelength cones, in exact arithmetic,
/// truncated.
pub open spec fn exact_deuteranopia(r: u8, g: u8, b: u8) -> (nat, nat, nat) {
    (exact_row(625, r, 375, g), exact_row(700, r, 300, g), exact_row(300, g, 700, b))
}

/// The colour seen without short-wavelength cones, in exact arithmetic,
/// truncated.
pub open spec fn exact_tritanopia(r: u8, g: u8, b: u8) -> (nat, nat, nat) {
    (exact_row(950, r, 50, g), exact_row(433, g, 567, b), exact_row(475, g, 525, b))
}

/// The blend of a colour with its simulation in exact arithmetic,
/// truncated.
pub open spec fn exact_blend_of(
    original: (nat, nat, nat),
    simulated: (nat, nat, nat),
    weight: nat,
) -> (nat, nat, nat) {
    (
        exact_blend(original.0, simulated.0, weight),
        exact_blend(original.1, simulated.1, weight),
        exact_blend(original.2, simulated.2, weight),
    )
}

/// What a colour looks like under the given kind of vision where every
/// formula is evaluated in exact arithmetic and truncated; an anomaly blends
/// the colour with its dichromacy as `appearance` has it.
pub open spec fn exact_appearance(r: u8, g: u8, b: u8, kind: ColorBlindnessType) -> (
    nat,
    nat,
    nat,
) {
    match kind {
        ColorBlindnessType::Normal => channels(r, g, b),
        ColorBlindnessType::Protanopia => exact_protanopia(r, g, b),
        ColorBlindnessType::Deuteranopia => exact_deuteranopia(r, g, b),
        ColorBlindnessType::Tritanopia => exact_tritanopia(r, g, b),
        ColorBlindnessType::Protanomaly => exact_blend_of(
            channels(r, g, b),
            protanopia(r, g, b),
            ANOMALY_WEIGHT as nat,
        ),
        ColorBlindnessType::Deuteranomaly => exact_blend_of(
            channels(r, g, b),
            deuteranopia(r, g, b),
            ANOMALY_WEIGHT as nat,
        ),
        ColorBlindnessType::Tritanomaly => exact_blend_of(
            channels(r, g, b),
            tritanopia(r, g, b),
            ANOMALY_WEIGHT as nat,
        ),
        ColorBlindnessType::Achromatopsia => (
            exact_luminance(r, g, b),
            exact_luminance(r, g, b),
            exact_luminance(r, g, b),
        ),
    }
}

/// Whether each of three channel values is the exact one or one less.
pub open spec fn one_below_at_most(values: (nat, nat, nat), exact: (nat, nat, nat)) -> bool {
    &&& values.0 <= exact.0 <= values.0 + 1
    &&& values.1 <= exact.1 <= values.1 + 1
    &&& values.2 <= exact.2 <= values.2 + 1
}

/// Whether each channel of a colour is the exact one or one less.
pub open spec fn near_exact(color: (u8, u8, u8), exact: (nat, nat, nat)) -> bool {
    one_below_at_most(channels(color.0, color.1, color.2), exact)
}

/// Whether a value in units lies less than a thousandth from the exact
/// value of `thousandths` thousandths.
pub open spec fn within_a_thousandth(value: nat, thousandths: int) -> bool {
    ones(thousandths - 1) < 1000 * value < ones(thousandths + 1)
}

/// Products of bounded factors lie between the products of the bounds.
proof fn lemma_products_between(a: int, low_a: int, high_a: int, b: int, low_b: int, high_b: int)
    by (nonlinear_arith)
    requires
        0 <= low_a <= a <= high_a,
        0 <= low_b <= b <= high_b,
    ensures
        low_a * low_b <= a * b <= high_a * high_b,
{
}

/// A multiple of a bounded number lies between the multiples of the bounds.
proof fn lemma_multiple_between(n: int, x: int, low: int, high: int)
    by (nonlinear_arith)
    requires
        0 <= n,
        low <= x <= high,
    ensures
        n * low <= n * x <= n * high,
{
}

/// A value that a thousand times over lies less than a thousandth from
/// `exact` is, truncated, the thousandth part of `exact`, truncated, or
/// one less.
proof fn lemma_truncated_near(value: nat, exact: nat)
    requires
        ones(exact - 1) < 1000 * value < ones(exact as int + 1),
    ensures
        truncated(value) <= exact / 1000 <= truncated(value) + 1,
{
    let floor = exact / 1000;
    assert(floor * 1000 <= exact <= floor * 1000 + 999);
    assert(value < ones(floor as int + 1));
    assert(value >= ones(floor as int - 1));
    assert(ONE == ones(1));
}

/// A channel weighted by `w` thousandths is `w * c / 255000`, give or take
/// four parts in 2^24.
proof fn lemma_weighted_error(w: nat, c: u8)
    requires
        w <= 1000,
    ensures
        ones(w * c) - grains(4 * w * c) <= 255000 * product(
            quotient(w, 1000),
            quotient(c as nat, 255),
        ) <= ones(w * c) + grains(4 * w * c),
{
    let weight = quotient(w, 1000);
    let level = quotient(c as nat, 255);
    let exact = weight * level;
    let p = product(weight, level);
    let wc = w * c;
    lemma_quotient_error(w, 1000);
    lemma_quotient_error(c as nat, 255);
    lemma_nearest_error(exact, ONE as nat);
    if w == 0 || c == 0 {
        assert(exact == 0 && wc == 0) by (nonlinear_arith)
            requires
                exact == weight * level,
                wc == w * c,
                (w == 0 && weight == 0) || (c == 0 && level == 0),
        ;
        assert(4 * w * c == 4 * wc) by (nonlinear_arith)
            requires
                wc == w * c,
        ;
    } else {
        let low_weight = ones(w as int) - grains(w as int);
        let high_weight = ones(w as int) + grains(w as int);
        let low_level = ones(c as int) - grains(c as int);
        let high_level = ones(c as int) + grains(c as int);
        // Both factors are at least 2^45 units, so that the product is
        // rounded where binary32 rounds it.
        assert(exact >= 0x2000_0000_0000 * 0x2000_0000_0000) by (nonlinear_arith)
            requires
                exact == weight * level,
                weight >= 0x2000_0000_0000,
                level >= 0x2000_0000_0000,
        ;
        assert(exact / (ONE as nat) >= SIGNIFICANDS);
        lemma_products_between(
            (1000 * weight) as int,
            low_weight,
            high_weight,
            (255 * level) as int,
            low_level,
            high_level,
        );
        assert((1000 * weight) * (255 * level) == 255000 * exact) by (nonlinear_arith)
            requires
                exact == weight * level,
        ;
        assert(low_weight * low_level == wc * 0xffff_fe00_0001_0000_0000_0000_0000) by (
            nonlinear_arith)
            requires
                low_weight == ones(w as int) - grains(w as int),
                low_level == ones(c as int) - grains(c as int),
                wc == w * c,
        ;
        assert(high_weight * high_level == wc * 0x1_0000_0200_0001_0000_0000_0000_0000) by (
            nonlinear_arith)
            requires
                high_weight == ones(w as int) + grains(w as int),
                high_level == ones(c as int) + grains(c as int),
                wc == w * c,
        ;
        assert(p * (ONE as nat) * SIGNIFICANDS == p * 0x1_0000_0000_0000_0000_0000) by (
            nonlinear_arith);
        assert(exact * (SIGNIFICANDS - 1) == exact * 0xff_ffff) by (nonlinear_arith);
        assert(exact * (SIGNIFICANDS + 1) == exact * 0x100_0001) by (nonlinear_arith);
        assert(4 * w * c == 4 * wc) by (nonlinear_arith)
            requires
                wc == w * c,
        ;
        assert(ones(wc) - grains(4 * wc) <= 255000 * p <= ones(wc) + grains(4 * wc));
    }
}

/// The value of a row of a dichromacy matrix, evaluated in binary32, lies
/// less than a thousandth from the exact value: so little do the five
/// roundings on its way add up to. Truncated, it is the exact value
/// truncated, or one less.
pub proof fn lemma_matrix_row_near_exact(w1: nat, a: u8, w2: nat, b: u8)
    requires
        w1 + w2 <= 1000,
    ensures
        within_a_thousandth(matrix_row_value(w1, a, w2, b), w1 * a + w2 * b),
        matrix_row(w1, a, w2, b) <= exact_row(w1, a, w2, b) <= matrix_row(w1, a, w2, b) + 1,
{
    let first = product(quotient(w1, 1000), quotient(a as nat, 255));
    let second = product(quotient(w2, 1000), quotient(b as nat, 255));
    let mixed = sum(first, second);
    let full = multiple(mixed, 255);
    let exact = w1 * a + w2 * b;
    lemma_weighted_error(w1, a);
    lemma_weighted_error(w2, b);
    assert(0 <= w1 * a && 0 <= w2 * b && exact <= 255000 && 4 * w1 * a == 4 * (w1 * a) && 4 * w2
        * b == 4 * (w2 * b)) by (nonlinear_arith)
        requires
            exact == w1 * a + w2 * b,
            w1 + w2 <= 1000,
            a <= 255,
            b <= 255,
    ;
    assert(ones(exact) - grains(4 * exact) <= 255000 * (first + second) <= ones(exact) + grains(
        4 * exact,
    ));
    lemma_whole_error(first + second, 2);
    lemma_whole_error(mixed * 255, 512);
    assert(ones(exact - 1) < 1000 * full < ones(exact + 1));
    lemma_truncated_near(full, exact as nat);
    let limited = if full > 255 * ONE {
        (255 * ONE) as nat
    } else {
        full
    };
    assert(ONE == ones(1));
    assert(truncated(limited) == if truncated(full) > 255 {
        255
    } else {
        truncated(full)
    });
}

/// The value of a channel of a blend, evaluated in binary32, lies less
/// than a thousandth from the exact value. Truncated, it is the exact value
/// truncated, or one less.
pub proof fn lemma_blended_near_exact(original: nat, simulated: nat, weight: nat)
    requires
        original <= 255,
        simulated <= 255,
        weight <= 1000,
    ensures
        within_a_thousandth(
            blended_value(original, simulated, weight),
            (1000 - weight) * original + weight * simulated,
        ),
        blended(original, simulated, weight) <= exact_blend(original, simulated, weight)
            <= blended(original, simulated, weight) + 1,
{
    let share = quotient(weight, 1000);
    let rest = difference(ONE as nat, share);
    let kept = multiple(rest, original);
    let added = multiple(share, simulated);
    let mixed = sum(kept, added);
    let o = original as int;
    let s = simulated as int;
    let w = weight as int;
    let exact = (1000 - w) * o + w * s;
    let ow = o * w;
    let sw = s * w;
    assert(ONE == ones(1));
    lemma_quotient_error(weight, 1000);
    if share <= ONE {
        lemma_whole_error((ONE - share) as nat, 1);
    }
    assert(ones(1) - share - grains(1) <= rest <= ones(1) - share + grains(1));
    assert(0 <= exact <= 255000 && 0 <= ow <= 255000 && 0 <= sw <= 255000 && exact == 1000 * o
        - ow + sw) by (nonlinear_arith)
        requires
            exact == (1000 - w) * o + w * s,
            ow == o * w,
            sw == s * w,
            0 <= o <= 255,
            0 <= s <= 255,
            0 <= w <= 1000,
    ;
    let low_rest = ones(1000 - w) - grains(1000 + w);
    let high_rest = ones(1000 - w) + grains(1000 + w);
    let low_share = ones(w) - grains(w);
    let high_share = ones(w) + grains(w);
    lemma_multiple_between(o, (1000 * rest) as int, low_rest, high_rest);
    lemma_multiple_between(s, (1000 * share) as int, low_share, high_share);
    assert(o * low_rest == ones(1000 * o - ow) - grains(1000 * o + ow) && o * high_rest == ones(
        1000 * o - ow,
    ) + grains(1000 * o + ow)) by (nonlinear_arith)
        requires
            low_rest == ones(1000 - w) - grains(1000 + w),
            high_rest == ones(1000 - w) + grains(1000 + w),
            ow == o * w,
    ;
    assert(s * low_share == ones(sw) - grains(sw) && s * high_share == ones(sw) + grains(sw))
        by (nonlinear_arith)
        requires
            low_share == ones(w) - grains(w),
            high_share == ones(w) + grains(w),
            sw == s * w,
    ;
    assert(o * (1000 * rest) == 1000 * (rest * original) && s * (1000 * share) == 1000 * (share
        * simulated)) by (nonlinear_arith)
        requires
            o == original,
            s == simulated,
    ;
    lemma_whole_error(rest * original, 256);
    lemma_whole_error(share * simulated, 256);
    lemma_whole_error(kept + added, 513);
    assert(ones(exact - 1) < 1000 * mixed < ones(exact + 1));
    lemma_truncated_near(mixed, exact as nat);
}

/// The value of the luminance of a colour, evaluated in binary32, lies
/// less than a thousandth from the exact value. Truncated, it is the exact
/// value truncated, or one less.
pub proof fn lemma_luminance_near_exact(r: u8, g: u8, b: u8)
    ensures
        within_a_thousandth(luminance_value(r, g, b), 299 * r + 587 * g + 114 * b),
        luminance(r, g, b) <= exact_luminance(r, g, b) <= luminance(r, g, b) + 1,
{
    let red = quotient(299, 1000);
    let green = quotient(587, 1000);
    let blue = quotient(114, 1000);
    let x = r as int;
    let y = g as int;
    let z = b as int;
    let first = multiple(red, r as nat);
    let second = multiple(green, g as nat);
    let third = multiple(blue, b as nat);
    let both = sum(first, second);
    let weighted = sum(both, third);
    let exact = 299 * x + 587 * y + 114 * z;
    lemma_quotient_error(299, 1000);
    lemma_quotient_error(587, 1000);
    lemma_quotient_error(114, 1000);
    lemma_multiple_between(x, (1000 * red) as int, ones(299) - grains(299), ones(299) + grains(299));
    lemma_multiple_between(y, (1000 * green) as int, ones(587) - grains(587), ones(587) + grains(
        587,
    ));
    lemma_multiple_between(z, (1000 * blue) as int, ones(114) - grains(114), ones(114) + grains(
        114,
    ));
    assert(x * (1000 * red) == 1000 * (red * x) && y * (1000 * green) == 1000 * (green * y) && z
        * (1000 * blue) == 1000 * (blue * z)) by (nonlinear_arith);
    assert(x * (ones(299) - grains(299)) == ones(299 * x) - grains(299 * x) && x * (ones(299)
        + grains(299)) == ones(299 * x) + grains(299 * x)) by (nonlinear_arith);
    assert(y * (ones(587) - grains(587)) == ones(587 * y) - grains(587 * y) && y * (ones(587)
        + grains(587)) == ones(587 * y) + grains(587 * y)) by (nonlinear_arith);
    assert(z * (ones(114) - grains(114)) == ones(114 * z) - grains(114 * z) && z * (ones(114)
        + grains(114)) == ones(114 * z) + grains(114 * z)) by (nonlinear_arith);
    assert(ones(299 * x) - grains(299 * x) <= 1000 * (red * x) <= ones(299 * x) + grains(299 * x));
    assert(ones(587 * y) - grains(587 * y) <= 1000 * (green * y) <= ones(587 * y) + grains(
        587 * y,
    ));
    assert(ones(114 * z) - grains(114 * z) <= 1000 * (blue * z) <= ones(114 * z) + grains(
        114 * z,
    ));
    lemma_whole_error(red * (r as nat), 256);
    lemma_whole_error(green * (g as nat), 256);
    lemma_whole_error(blue * (b as nat), 256);
    assert(red * x - grains(256) <= first <= red * x + grains(256));
    assert(green * y - grains(256) <= second <= green * y + grains(256));
    assert(blue * z - grains(256) <= third <= blue * z + grains(256));
    lemma_whole_error(first + second, 513);
    lemma_whole_error(both + third, 1024);
    assert(red * x + green * y - grains(1025) <= both <= red * x + green * y + grains(1025));
    assert(ones(exact - 1) < 1000 * weighted < ones(exact + 1));
    lemma_truncated_near(weighted, exact as nat);
}

/// Each channel of a dichromacy, evaluated in binary32, is the exact
/// value truncated, or one less.
pub proof fn lemma_dichromacy_near_exact(r: u8, g: u8, b: u8)
    ensures
        one_below_at_most(protanopia(r, g, b), exact_protanopia(r, g, b)),
        one_below_at_most(deuteranopia(r, g, b), exact_deuteranopia(r, g, b)),
        one_below_at_most(tritanopia(r, g, b), exact_tritanopia(r, g, b)),
{
    lemma_matrix_row_near_exact(567, r, 433, g);
    lemma_matrix_row_near_exact(558, r, 442, g);
    lemma_matrix_row_near_exact(242, g, 758, b);
    lemma_matrix_row_near_exact(625, r, 375, g);
    lemma_matrix_row_near_exact(700, r, 300, g);
    lemma_matrix_row_near_exact(300, g, 700, b);
    lemma_matrix_row_near_exact(950, r, 50, g);
    lemma_matrix_row_near_exact(433, g, 567, b);
    lemma_matrix_row_near_exact(475, g, 525, b);
}

/// Each channel of a blend of two colours, evaluated in binary32, is the
/// exact value truncated, or one less.
pub proof fn lemma_blend_near_exact(
    original: (nat, nat, nat),
    simulated: (nat, nat, nat),
    weight: nat,
)
    requires
        original.0 <= 255 && original.1 <= 255 && original.2 <= 255,
        simulated.0 <= 255 && simulated.1 <= 255 && simulated.2 <= 255,
        weight <= 1000,
    ensures
        one_below_at_most(
            blend(original, simulated, weight),
            exact_blend_of(original, simulated, weight),
        ),
{
    lemma_blended_near_exact(original.0, simulated.0, weight);
    lemma_blended_near_exact(original.1, simulated.1, weight);
    lemma_blended_near_exact(original.2, simulated.2, weight);
}

/// Under every kind of vision each channel, evaluated in binary32, is the
/// value of the exact formula truncated, or one less.
pub proof fn lemma_appearance_near_exact(r: u8, g: u8, b: u8, kind: ColorBlindnessType)
    ensures
        one_below_at_most(appearance(r, g, b, kind), exact_appearance(r, g, b, kind)),
{
    lemma_dichromacy_near_exact(r, g, b);
    lemma_luminance_near_exact(r, g, b);
    lemma_appearance_in_range(r, g, b, ColorBlindnessType::Protanopia);
    lemma_appearance_in_range(r, g, b, ColorBlindnessType::Deuteranopia);
    lemma_appearance_in_range(r, g, b, ColorBlindnessType::Tritanopia);
    lemma_blend_near_exact(channels(r, g, b), protanopia(r, g, b), ANOMALY_WEIGHT as nat);
    lemma_blend_near_exact(channels(r, g, b), deuteranopia(r, g, b), ANOMALY_WEIGHT as nat);
    lemma_blend_near_exact(channels(r, g, b), tritanopia(r, g, b), ANOMALY_WEIGHT as nat);
}

/// Weights a channel, brought to the range from zero to one, by `w`
/// thousandths.
fn weighted_of(w: u16, c: u8) -> (v: u128)
    requires
        w <= 1000,
    ensures
        v == product(quotient(w as nat, 1000), quotient(c as nat, 255)),
        v <= 1024 * ONE,
{
    let weight: u128 = quotient_of(w as u64, 1000);
    let level: u128 = quotient_of(c as u64, 255);
    proof {
        lemma_quotient_error(w as nat, 1000);
        lemma_quotient_error(c as nat, 255);
        if w > 0 && c > 0 {
            // Both factors are at least 2^45 units.
            assert(weight * level >= 0x2000_0000_0000 * 0x2000_0000_0000) by (nonlinear_arith)
                requires
                    weight >= 0x2000_0000_0000,
                    level >= 0x2000_0000_0000,
            ;
        } else {
            assert(weight * level == 0) by (nonlinear_arith)
                requires
                    weight == 0 || level == 0,
            ;
        }
    }
    product_of(weight, level)
}

/// Computes one row of a dichromacy matrix.
fn matrix_row_of(w1: u16, a: u8, w2: u16, b: u8) -> (out: u8)
    requires
        w1 <= 1000,
        w2 <= 1000,
    ensures
        out == matrix_row(w1 as nat, a, w2 as nat, b),
{
    let first: u128 = weighted_of(w1, a);
    let second: u128 = weighted_of(w2, b);
    let mixed: u128 = sum_of(first, second);
    let full: u128 = multiple_of(mixed, 255);
    let limited: u128 = if full > 255 * ONE {
        255 * ONE
    } else {
        full
    };
    (limited / ONE) as u8
}

/// Simulates red-blindness on one colour.
pub fn simulate_protanopia(r: u8, g: u8, b: u8) -> (out: (u8, u8, u8))
    ensures
        shows(out, protanopia(r, g, b)),
        near_exact(out, exact_protanopia(r, g, b)),
{
    proof {
        lemma_dichromacy_near_exact(r, g, b);
    }
    (matrix_row_of(567, r, 433, g), matrix_row_of(558, r, 442, g), matrix_row_of(242, g, 758, b))
}

/// Simulates green-blindness on one colour.
pub fn simulate_deuteranopia(r: u8, g: u8, b: u8) -> (out: (u8, u8, u8))
    ensures
        shows(out, deuteranopia(r, g, b)),
        near_exact(out, exact_deuteranopia(r, g, b)),
{
    proof {
        lemma_dichromacy_near_exact(r, g, b);
    }
    (matrix_row_of(625, r, 375, g), matrix_row_of(700, r, 300, g), matrix_row_of(300, g, 700, b))
}

/// Simulates blue-blindness on one colour.
pub fn simulate_tritanopia(r: u8, g: u8, b: u8) -> (out: (u8, u8, u8))
    ensures
        shows(out, tritanopia(r, g, b)),
        near_exact(out, exact_tritanopia(r, g, b)),
{
    proof {
        lemma_dichromacy_near_exact(r, g, b);
    }
    (matrix_row_of(950, r, 50, g), matrix_row_of(433, g, 567, b), matrix_row_of(475, g, 525, b))
}

/// Blends one channel of an original colour with its simulation.
fn blended_of(original: u8, simulated: u8, weight: u16) -> (out: u8)
    requires
        weight <= 1000,
    ensures
        out == blended(original as nat, simulated as nat, weight as nat),
{
    let share: u128 = quotient_of(weight as u64, 1000);
    let rest: u128 = if share <= ONE {
        difference_of(ONE, share)
    } else {
        0
    };
    let kept: u128 = multiple_of(rest, original as u64);
    let added: u128 = multiple_of(share, simulated as u64);
    let mixed: u128 = sum_of(kept, added) / ONE;
    if mixed > 255 {
        255
    } else {
        mixed as u8
    }
}

/// Blends an original colour with a simulated one, `weight` thousandths of
/// the simulated colour, a thousand at most, to the rest of the original.
pub fn blend_colors(r1: u8, g1: u8, b1: u8, r2: u8, g2: u8, b2: u8, weight: u16) -> (out: (
    u8,
    u8,
    u8,
))
    requires
        weight <= 1000,
    ensures
        shows(out, blend(channels(r1, g1, b1), channels(r2, g2, b2), weight as nat)),
        near_exact(
            out,
            exact_blend_of(channels(r1, g1, b1), channels(r2, g2, b2), weight as nat),
        ),
{
    proof {
        lemma_blend_near_exact(channels(r1, g1, b1), channels(r2, g2, b2), weight as nat);
    }
    (blended_of(r1, r2, weight), blended_of(g1, g2, weight), blended_of(b1, b2, weight))
}

/// Simulates red-weakness on one colour.
pub fn simulate_protanomaly(r: u8, g: u8, b: u8) -> (out: (u8, u8, u8))
    ensures
        shows(out, appearance(r, g, b, ColorBlindnessType::Protanomaly)),
        near_exact(out, exact_appearance(r, g, b, ColorBlindnessType::Protanomaly)),
{
    proof {
        lemma_appearance_near_exact(r, g, b, ColorBlindnessType::Protanomaly);
    }
    let (sim_r, sim_g, sim_b) = simulate_protanopia(r, g, b);
    blend_colors(r, g, b, sim_r, sim_g, sim_b, ANOMALY_WEIGHT)
}

/// Simulates green-weakness on one colour.
pub fn simulate_deuteranomaly(r: u8, g: u8, b: u8) -> (out: (u8, u8, u8))
    ensures
        shows(out, appearance(r, g, b, ColorBlindnessType::Deuteranomaly)),
        near_exact(out, exact_appearance(r, g, b, ColorBlindnessType::Deuteranomaly)),
{
    proof {
        lemma_appearance_near_exact(r, g, b, ColorBlindnessType::Deuteranomaly);
    }
    let (sim_r, sim_g, sim_b) = simulate_deuteranopia(r, g, b);
    blend_colors(r, g, b, sim_r, sim_g, sim_b, ANOMALY_WEIGHT)
}

/// Simulates blue-weakness on one colour.
pub fn simulate_tritanomaly(r: u8, g: u8, b: u8) -> (out: (u8, u8, u8))
    ensures
        shows(out, appearance(r, g, b, ColorBlindnessType::Tritanomaly)),
        near_exact(out, exact_appearance(r, g, b, ColorBlindnessType::Tritanomaly)),
{
    proof {
        lemma_appearance_near_exact(r, g, b, ColorBlindnessType::Tritanomaly);
    }
    let (sim_r, sim_g, sim_b) = simulate_tritanopia(r, g, b);
    blend_colors(r, g, b, sim_r, sim_g, sim_b, ANOMALY_WEIGHT)
}

/// Takes `w` thousandths of a channel.
fn luminance_term_of(w: u16, c: u8) -> (v: u128)
    requires
        w <= 1000,
    ensures
        v == multiple(quotient(w as nat, 1000), c as nat),
        v <= 0x20_0000_0000 * ONE,
{
    multiple_of(quotient_of(w as u64, 1000), c as u64)
}

/// Simulates total colour blindness on one colour: its luminance in every
/// channel.
pub fn simulate_achromatopsia(r: u8, g: u8, b: u8) -> (out: (u8, u8, u8))
    ensures
        shows(out, appearance(r, g, b, ColorBlindnessType::Achromatopsia)),
        out.0 == out.1 && out.1 == out.2,
        out.0 <= exact_luminance(r, g, b) <= out.0 + 1,
{
    proof {
        lemma_luminance_near_exact(r, g, b);
    }
    let red: u128 = luminance_term_of(299, r);
    let green: u128 = luminance_term_of(587, g);
    let blue: u128 = luminance_term_of(114, b);
    let weighted: u128 = sum_of(sum_of(red, green), blue) / ONE;
    let gray: u8 = if weighted > 255 {
        255
    } else {
        weighted as u8
    };
    (gray, gray, gray)
}

/// Simulates the given kind of colour vision on a single colour.
pub fn simulate_color_blindness(r: u8, g: u8, b: u8, cb_type: ColorBlindnessType) -> (out: (
    u8,
    u8,
    u8,
))
    ensures
        out == simulated(r, g, b, cb_type),
        shows(out, appearance(r, g, b, cb_type)),
        near_exact(out, exact_appearance(r, g, b, cb_type)),
        cb_type is Normal ==> out == (r, g, b),
        cb_type is Achromatopsia ==> out.0 == out.1 && out.1 == out.2,
{
    proof {
        lemma_appearance_near_exact(r, g, b, cb_type);
    }
    match cb_type {
        ColorBlindnessType::Normal => (r, g, b),
        ColorBlindnessType::Protanopia => simulate_protanopia(r, g, b),
        ColorBlindnessType::Deuteranopia => simulate_deuteranopia(r, g, b),
        ColorBlindnessType::Tritanopia => simulate_tritanopia(r, g, b),
        ColorBlindnessType::Protanomaly => simulate_protanomaly(r, g, b),
        ColorBlindnessType::Deuteranomaly => simulate_deuteranomaly(r, g, b),
        ColorBlindnessType::Tritanomaly => simulate_tritanomaly(r, g, b),
        ColorBlindnessType::Achromatopsia => simulate_achromatopsia(r, g, b),
    }
}

/// Simulates the given kind of colour vision on every pixel of an image.
/// The result is a new image of the same width and height, in which each
/// pixel has the simulated colour of the pixel at the same place and its
/// alpha unchanged.
pub fn simulate_image_colorblindness(img: &RasterImage, cb_type: ColorBlindnessType) -> (out:
    RasterImage)
    ensures
        width(out) == width(*img),
        height(out) == height(*img),
        spare(out) == spare(*img),
        pixels(out) == pixels(*img).map_values(|p: (u8, u8, u8, u8)| recolored(p, cb_type)),
        forall|x: nat, y: nat|
            x < width(*img) && y < height(*img) ==> #[trigger] pixels(out)[position(out, x, y)]
                == recolored(pixels(*img)[position(*img, x, y)], cb_type),
{
    let (w, h) = dimensions(img);
    let mut output = duplicate(img);
    let ghost before = pixels(*img);
    let mut y: u32 = 0;
    while y < h
        invariant
            y <= h,
            w == width(*img),
            h == height(*img),
            before == pixels(*img),
            before.len() == w * h,
            width(output) == w,
            height(output) == h,
            spare(output) == spare(*img),
            pixels(output).len() == before.len(),
            forall|i: int| 0 <= i < y * w ==> pixels(output)[i] == recolored(before[i], cb_type),
            forall|i: int| y * w <= i < before.len() ==> pixels(output)[i] == before[i],
        decreases h - y,
    {
        let mut x: u32 = 0;
        while x < w
            invariant
                x <= w,
                y < h,
                w == width(*img),
                h == height(*img),
                before == pixels(*img),
                before.len() == w * h,
                width(output) == w,
                height(output) == h,
                spare(output) == spare(*img),
                pixels(output).len() == before.len(),
                forall|i: int|
                    0 <= i < y * w + x ==> pixels(output)[i] == recolored(before[i], cb_type),
                forall|i: int| y * w + x <= i < before.len() ==> pixels(output)[i] == before[i],
            decreases w - x,
        {
            proof {
                lemma_position_in_image(x as nat, y as nat, w as nat, h as nat);
            }
            let p = pixel_at(&output, x, y);
            let (r, g, b) = simulate_color_blindness(p.0, p.1, p.2, cb_type);
            set_pixel(&mut output, x, y, (r, g, b, p.3));
            x = x + 1;
        }
        proof {
            assert((y + 1) * w == y * w + w) by (nonlinear_arith);
        }
        y = y + 1;
    }
    proof {
        assert(pixels(output) =~= before.map_values(|p: (u8, u8, u8, u8)| recolored(p, cb_type)));
        assert forall|x: nat, y: nat| x < width(*img) && y < height(*img) implies #[trigger] pixels(
            output,
        )[position(output, x, y)] == recolored(pixels(*img)[position(*img, x, y)], cb_type) by {
            lemma_position_in_image(x, y, w as nat, h as nat);
        }
    }
    output
}

} // verus!
