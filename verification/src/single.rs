//! Non-negative IEEE 754 binary32 arithmetic, carried out exactly on integers.
//!
//! A value is held as a whole number of units of 2^-56. Rounding is to the
//! nearest value with a 24-bit significand, ties to the even significand, and
//! never finer than one unit. That is the binary32 rule wherever the exact
//! result is a whole number of units, is nothing, or is 2^-33 at least: see
//! `faithful`, which every rounding that is executed here has to meet.

use vstd::prelude::*;

verus! {

/// The value one, in units.
pub const ONE: u128 = 0x100_0000_0000_0000;

/// Bound on the quotients that `round` accepts: 2^126 units.
pub const LIMIT: u128 = 0x4000_0000_0000_0000_0000_0000_0000_0000;

/// Bound on the whole numbers that `quotient_of` and `multiple_of` accept:
/// 2^34.
pub const WHOLE_LIMIT: u64 = 0x4_0000_0000;

/// Bound on the divisors that `quotient_of` accepts: 2^33.
pub const DIVISOR_LIMIT: u64 = 0x2_0000_0000;

/// Bound on the factors that `product_of` accepts: 2^60 units, the value 16.
pub const FACTOR_LIMIT: u128 = 0x1000_0000_0000_0000;

/// Bound on the terms that `sum_of` and `difference_of` accept: 2^100 units.
pub const TERM_LIMIT: u128 = 0x10_0000_0000_0000_0000_0000_0000;

/// Bound on the values that `multiple_of` accepts: 2^92 units.
pub const MULTIPLE_LIMIT: u128 = 0x1000_0000_0000_0000_0000_0000;

/// The distance between neighbouring representable values in the binade of
/// `n`: one unit below 2^24 units, doubling with each further bit of `n`.
pub open spec fn spacing(n: nat) -> nat
    decreases n,
{
    if n < 0x100_0000 {
        1
    } else {
        2 * spacing(n / 2)
    }
}

/// The representable value nearest to the exact quotient `num / den`, a tie
/// going to the neighbour with the even significand.
pub open spec fn nearest(num: nat, den: nat) -> nat
    recommends
        den > 0,
{
    let q = spacing(num / den);
    let step = q * den;
    let k = num / step;
    let rest = num % step;
    if 2 * rest > step || (2 * rest == step && k % 2 == 1) {
        (k + 1) * q
    } else {
        k * q
    }
}

/// Whether rounding the exact quotient `num / den` by `nearest` is rounding
/// it as binary32 does: the quotient is a whole number of units, which below
/// 2^24 units has a value of its own and from there on lies where values are
/// a unit or more apart, or it is nothing, or it is 2^23 units at least.
pub open spec fn faithful(num: nat, den: nat) -> bool {
    den == 1 || num == 0 || num / den >= 0x80_0000
}

/// A whole number, rounded.
pub open spec fn whole(n: nat) -> nat {
    nearest(n, 1)
}

/// The quotient of two whole numbers, rounded.
pub open spec fn quotient(a: nat, b: nat) -> nat
    recommends
        b > 0,
{
    nearest(a * ONE as nat, b)
}

/// The product of two values, rounded.
pub open spec fn product(a: nat, b: nat) -> nat {
    nearest(a * b, ONE as nat)
}

/// The sum of two values, rounded.
pub open spec fn sum(a: nat, b: nat) -> nat {
    nearest(a + b, 1)
}

/// The difference of two values, rounded; zero where `b` exceeds `a`.
pub open spec fn difference(a: nat, b: nat) -> nat {
    if a >= b {
        nearest((a - b) as nat, 1)
    } else {
        0
    }
}

/// The value `a` taken `k` times, rounded.
pub open spec fn multiple(a: nat, k: nat) -> nat {
    nearest(a * k, 1)
}

/// The whole part of a value.
pub open spec fn truncated(a: nat) -> nat {
    a / ONE as nat
}

/// The spacing is positive, and from 2^24 units on it is at most the 2^23rd
/// part of the value.
pub proof fn lemma_spacing_bounds(n: nat)
    ensures
        spacing(n) >= 1,
        n >= 0x100_0000 ==> spacing(n) * 0x80_0000 <= n,
        spacing(n) <= 1 || spacing(n) <= n,
    decreases n,
{
    if n >= 0x100_0000 {
        lemma_spacing_bounds(n / 2);
    }
}

/// The number of values that a significand can take: 2^24.
pub const SIGNIFICANDS: u128 = 0x100_0000;

/// The whole number `n` in units.
#[verifier::inline]
pub open spec fn ones(n: int) -> int {
    n * 0x100_0000_0000_0000
}

/// `n` parts in 2^24 of the value one, in units.
#[verifier::inline]
pub open spec fn grains(n: int) -> int {
    n * 0x1_0000_0000
}

/// Whether `v` is `target / scale`, give or take `slack` parts in 2^24 of
/// it.
pub open spec fn about(v: nat, scale: nat, target: nat, slack: nat) -> bool {
    target * (SIGNIFICANDS - slack) <= v * scale * SIGNIFICANDS <= target * (SIGNIFICANDS + slack)
}

/// Rounding an exact quotient of at least 2^24 units, or a whole number of
/// units, changes it by at most one part in 2^24, and rounding nothing gives
/// nothing.
pub proof fn lemma_nearest_error(num: nat, den: nat)
    requires
        den > 0,
    ensures
        num == 0 ==> nearest(num, den) == 0,
        num == 0 || den == 1 || num / den >= SIGNIFICANDS ==> about(
            nearest(num, den),
            den,
            num,
            1,
        ),
{
    let whole = num / den;
    let q = spacing(whole);
    let step = q * den;
    let k = num / step;
    let rest = num % step;
    lemma_spacing_bounds(whole);
    assert(step > 0) by (nonlinear_arith)
        requires
            step == q * den,
            q >= 1,
            den > 0,
    ;
    assert(num == k * step + rest && 0 <= rest < step) by (nonlinear_arith)
        requires
            k == num / step,
            rest == num % step,
            step > 0,
    ;
    if num == 0 {
        assert(k == 0 && rest == 0);
        assert(0 * q == 0) by (nonlinear_arith);
        assert(nearest(num, den) * den * SIGNIFICANDS == 0) by (nonlinear_arith)
            requires
                nearest(num, den) == 0,
        ;
    } else if whole >= SIGNIFICANDS {
        let r = nearest(num, den);
        assert(whole * den <= num) by (nonlinear_arith)
            requires
                whole == num / den,
                den > 0,
        ;
        assert(step * 0x80_0000 <= num) by (nonlinear_arith)
            requires
                step == q * den,
                q * 0x80_0000 <= whole,
                whole * den <= num,
                den > 0,
        ;
        let exact = r * den;
        if 2 * rest > step || (2 * rest == step && k % 2 == 1) {
            assert(r == (k + 1) * q);
            assert(exact == k * step + step) by (nonlinear_arith)
                requires
                    exact == r * den,
                    r == (k + 1) * q,
                    step == q * den,
            ;
            assert(num <= exact && 2 * (exact - num) <= step);
        } else {
            assert(r == k * q);
            assert(exact == k * step) by (nonlinear_arith)
                requires
                    exact == r * den,
                    r == k * q,
                    step == q * den,
            ;
            assert(exact <= num && 2 * (num - exact) <= step);
        }
        assert(num * 0xFF_FFFF <= exact * 0x100_0000 <= num * 0x100_0001);
        assert(r * den * SIGNIFICANDS == exact * 0x100_0000);
        assert(num * (SIGNIFICANDS - 1) == num * 0xFF_FFFF);
        assert(num * (SIGNIFICANDS + 1) == num * 0x100_0001);
    } else if den == 1 {
        assert(q == 1 && step == 1);
        assert(k == num && rest == 0);
        assert(nearest(num, den) == num) by (nonlinear_arith)
            requires
                nearest(num, den) == k * q,
                k == num,
                q == 1,
        ;
        assert(num * 1 * SIGNIFICANDS == num * 0x100_0000) by (nonlinear_arith);
        assert(num * (SIGNIFICANDS - 1) == num * 0xFF_FFFF);
        assert(num * (SIGNIFICANDS + 1) == num * 0x100_0001);
    }
}

/// The quotient of a whole number by a divisor of at most a thousand,
/// taken by that divisor, gives the number back within one part in 2^24.
pub proof fn lemma_quotient_error(n: nat, m: nat)
    requires
        0 < m <= 1000,
    ensures
        ones(n as int) - grains(n as int) <= m * quotient(n, m) <= ones(n as int) + grains(
            n as int,
        ),
{
    let q = quotient(n, m);
    let taken = q * m;
    lemma_nearest_error(n * (ONE as nat), m);
    assert(n == 0 || (n * (ONE as nat)) / m >= SIGNIFICANDS) by (nonlinear_arith)
        requires
            0 < m <= 1000,
    ;
    assert(q * m * SIGNIFICANDS == taken * 0x100_0000) by (nonlinear_arith)
        requires
            taken == q * m,
    ;
    assert(n * (ONE as nat) * (SIGNIFICANDS - 1) == (ones(n as int) - grains(n as int))
        * 0x100_0000) by (nonlinear_arith);
    assert(n * (ONE as nat) * (SIGNIFICANDS + 1) == (ones(n as int) + grains(n as int))
        * 0x100_0000) by (nonlinear_arith);
    assert(m * q == taken) by (nonlinear_arith)
        requires
            taken == q * m,
    ;
}

/// Rounding a value of at most `most` changes it by at most `most` parts
/// in 2^24 of the value one.
pub proof fn lemma_whole_error(value: nat, most: nat)
    requires
        value <= ones(most as int),
    ensures
        value - grains(most as int) <= nearest(value, 1) <= value + grains(most as int),
{
    let rounded = nearest(value, 1);
    lemma_nearest_error(value, 1);
    assert(rounded * 1 * SIGNIFICANDS == rounded * 0x100_0000) by (nonlinear_arith);
    assert(value * (SIGNIFICANDS - 1) == value * 0xff_ffff) by (nonlinear_arith);
    assert(value * (SIGNIFICANDS + 1) == value * 0x100_0001) by (nonlinear_arith);
}

/// Rounding changes an exact quotient by half a spacing at most.
pub proof fn lemma_nearest_half_spacing(num: nat, den: nat)
    requires
        den > 0,
    ensures
        2 * (nearest(num, den) * den) <= 2 * num + spacing(num / den) * den,
        2 * num <= 2 * (nearest(num, den) * den) + spacing(num / den) * den,
{
    let q = spacing(num / den);
    let step = q * den;
    let k = num / step;
    let rest = num % step;
    let r = nearest(num, den);
    let exact = r * den;
    lemma_spacing_bounds(num / den);
    assert(step > 0) by (nonlinear_arith)
        requires
            step == q * den,
            q >= 1,
            den > 0,
    ;
    assert(num == k * step + rest && 0 <= rest < step) by (nonlinear_arith)
        requires
            k == num / step,
            rest == num % step,
            step > 0,
    ;
    if 2 * rest > step || (2 * rest == step && k % 2 == 1) {
        assert(exact == k * step + step) by (nonlinear_arith)
            requires
                exact == r * den,
                r == (k + 1) * q,
                step == q * den,
        ;
    } else {
        assert(exact == k * step) by (nonlinear_arith)
            requires
                exact == r * den,
                r == k * q,
                step == q * den,
        ;
    }
}

/// Whether a number is a power of two.
pub open spec fn power_of_two(b: nat) -> bool
    decreases b,
{
    b == 1 || (b > 1 && b % 2 == 0 && power_of_two(b / 2))
}

/// Below `b` times 2^24, for a power of two `b`, values are at most `b`
/// units apart.
pub proof fn lemma_spacing_under(n: nat, b: nat)
    requires
        power_of_two(b),
        n < b * 0x100_0000,
    ensures
        spacing(n) <= b,
    decreases n,
{
    if n >= 0x100_0000 {
        lemma_spacing_under(n / 2, b / 2);
    }
}

/// Below `b` times 2^24, for a power of two `b`, the spacing divides `b`.
pub proof fn lemma_spacing_divides(n: nat, b: nat)
    requires
        power_of_two(b),
        n < b * 0x100_0000,
    ensures
        b == (b / spacing(n)) * spacing(n),
    decreases n,
{
    lemma_spacing_bounds(n);
    if n >= 0x100_0000 {
        lemma_spacing_divides(n / 2, b / 2);
        lemma_spacing_bounds(n / 2);
        let half = spacing(n / 2);
        let m = (b / 2) / half;
        assert(b == m * (2 * half)) by (nonlinear_arith)
            requires
                b == 2 * (b / 2),
                b / 2 == m * half,
        ;
        vstd::arithmetic::div_mod::lemma_fundamental_div_mod_converse(
            b as int,
            (2 * half) as int,
            m as int,
            0,
        );
    } else {
        assert(b / 1 == b);
        assert(b * 1 == b) by (nonlinear_arith);
    }
}

/// A whole number up to 2^24 has a value of its own.
pub proof fn lemma_whole_exact(n: nat)
    requires
        n <= 0x100_0000,
    ensures
        whole(n) == n,
{
    if n < 0x100_0000 {
        assert(spacing(n) == 1);
        assert(1 * 1 == 1) by (nonlinear_arith);
        assert(n / 1 == n && n % 1 == 0);
        assert(n * 1 == n) by (nonlinear_arith);
    } else {
        assert(spacing(n) == 2) by {
            reveal_with_fuel(spacing, 2);
        }
        assert(2 * 1 == 2) by (nonlinear_arith);
        assert(n / 2 == 0x80_0000 && n % 2 == 0);
        assert(0x80_0000 * 2 == 0x100_0000) by (nonlinear_arith);
    }
}

/// Eight more bits of `n` make the spacing 256 times as wide.
proof fn lemma_spacing_of_byte_more(n: nat)
    requires
        n >= 0x1_0000_0000,
    ensures
        spacing(n) == 256 * spacing(n / 256),
{
    reveal_with_fuel(spacing, 9);
    assert(n / 2 / 2 / 2 / 2 / 2 / 2 / 2 / 2 == n / 256);
}

/// Computes the spacing at `n`.
pub(crate) fn spacing_of(n: u128) -> (q: u128)
    ensures
        q == spacing(n as nat),
        q >= 1,
        n >= 0x100_0000 ==> q * 0x80_0000 <= n,
{
    let mut q: u128 = 1;
    let mut m: u128 = n;
    while m >= 0x1_0000_0000
        invariant
            spacing(n as nat) == q * spacing(m as nat),
            q * m <= n,
            q >= 1,
            n >= 0x100_0000 ==> m >= 0x80_0000,
        decreases m,
    {
        proof {
            lemma_spacing_of_byte_more(m as nat);
            let s = spacing((m / 256) as nat);
            assert(q * (256 * s) == (q * 256) * s) by (nonlinear_arith);
            assert((q * 256) * (m / 256) <= q * m) by (nonlinear_arith)
                requires
                    q >= 1,
                    m >= 0,
            ;
            assert(q * 256 <= q * m) by (nonlinear_arith)
                requires
                    q >= 1,
                    m >= 256,
            ;
        }
        m = m / 256;
        q = q * 256;
    }
    while m >= 0x100_0000
        invariant
            spacing(n as nat) == q * spacing(m as nat),
            q * m <= n,
            q >= 1,
            n >= 0x100_0000 ==> m >= 0x80_0000,
        decreases m,
    {
        proof {
            let s = spacing((m / 2) as nat);
            assert(spacing(m as nat) == 2 * s);
            assert(q * (2 * s) == (q * 2) * s) by (nonlinear_arith);
            assert((q * 2) * (m / 2) <= q * m) by (nonlinear_arith)
                requires
                    q >= 1,
                    m >= 0,
            ;
            assert(q * 2 <= q * m) by (nonlinear_arith)
                requires
                    q >= 1,
                    m >= 2,
            ;
        }
        m = m / 2;
        q = q * 2;
    }
    proof {
        assert(q * 1 == q) by (nonlinear_arith);
        if n >= 0x100_0000 {
            assert(q * 0x80_0000 <= q * m) by (nonlinear_arith)
                requires
                    q >= 1,
                    m >= 0x80_0000,
            ;
        }
    }
    q
}

/// Rounds the exact quotient `num / den` to the nearest representable value.
pub(crate) fn round(num: u128, den: u128) -> (r: u128)
    requires
        den > 0,
        num / den <= LIMIT,
        faithful(num as nat, den as nat),
    ensures
        r == nearest(num as nat, den as nat),
        r <= 2 * (num / den) + 1,
{
    let whole: u128 = num / den;
    let q: u128 = spacing_of(whole);
    proof {
        lemma_step_fits(num as nat, den as nat, q as nat);
    }
    let step: u128 = q * den;
    let k: u128 = num / step;
    let rest: u128 = num % step;
    proof {
        lemma_quanta_bound(num as nat, den as nat, q as nat);
        assert(k <= k * q) by (nonlinear_arith)
            requires
                q >= 1,
        ;
        assert((k + 1) * q == k * q + q) by (nonlinear_arith);
    }
    if rest > step - rest || (rest == step - rest && k % 2 == 1) {
        (k + 1) * q
    } else {
        k * q
    }
}

/// A step of `q` quotient units is at most the larger of numerator and
/// denominator, whenever `q` is one or at most the quotient.
proof fn lemma_step_fits(num: nat, den: nat, q: nat)
    requires
        den > 0,
        q >= 1,
        q == 1 || q <= num / den,
    ensures
        q * den <= if num >= den { num } else { den },
        q * den > 0,
{
    assert(q * den > 0) by (nonlinear_arith)
        requires
            q >= 1,
            den > 0,
    ;
    if q == 1 {
        assert(q * den == den) by (nonlinear_arith)
            requires
                q == 1,
        ;
    } else {
        let whole = num / den;
        assert(whole * den <= num) by (nonlinear_arith)
            requires
                whole == num / den,
                den > 0,
        ;
        assert(q * den <= whole * den) by (nonlinear_arith)
            requires
                q <= whole,
                den > 0,
        ;
    }
}

/// The whole steps below `num / den`, taken as quotient units, do not exceed
/// the quotient.
proof fn lemma_quanta_bound(num: nat, den: nat, q: nat)
    requires
        den > 0,
        q >= 1,
    ensures
        (num / (q * den)) * q <= num / den,
{
    let step = q * den;
    let k = num / step;
    assert(step > 0) by (nonlinear_arith)
        requires
            step == q * den,
            q >= 1,
            den > 0,
    ;
    assert(k * step <= num) by (nonlinear_arith)
        requires
            k == num / step,
            step > 0,
    ;
    assert(k * step == (k * q) * den) by (nonlinear_arith)
        requires
            step == q * den,
    ;
    assert(k * q <= num / den) by (nonlinear_arith)
        requires
            (k * q) * den <= num,
            den > 0,
    ;
}

/// A product is at most the product of bounds on its factors.
proof fn lemma_product_within(a: nat, b: nat, most_a: nat, most_b: nat)
    by (nonlinear_arith)
    requires
        a <= most_a,
        b <= most_b,
    ensures
        a * b <= most_a * most_b,
{
}

/// Rounds a whole number.
pub(crate) fn whole_of(n: u32) -> (v: u64)
    ensures
        v == whole(n as nat),
        v <= 2 * n + 1,
{
    round(n as u128, 1) as u64
}

/// Rounds the quotient of two whole numbers.
pub(crate) fn quotient_of(a: u64, b: u64) -> (v: u128)
    requires
        0 < b <= DIVISOR_LIMIT,
        a <= WHOLE_LIMIT,
    ensures
        v == quotient(a as nat, b as nat),
        v <= 2 * ((a * ONE) / (b as int)) + 1,
{
    proof {
        if a > 0 {
            assert((a * ONE) / (b as int) >= 0x80_0000) by (nonlinear_arith)
                requires
                    a >= 1,
                    0 < b <= 0x2_0000_0000,
                    ONE == 0x100_0000_0000_0000,
            ;
        }
    }
    round(a as u128 * ONE, b as u128)
}

/// Rounds the product of two values.
pub(crate) fn product_of(a: u128, b: u128) -> (v: u128)
    requires
        a <= FACTOR_LIMIT,
        b <= FACTOR_LIMIT,
        faithful((a * b) as nat, ONE as nat),
    ensures
        v == product(a as nat, b as nat),
        v <= 64 * FACTOR_LIMIT,
{
    proof {
        lemma_product_within(a as nat, b as nat, FACTOR_LIMIT as nat, FACTOR_LIMIT as nat);
        assert(FACTOR_LIMIT * FACTOR_LIMIT == ONE * (16 * FACTOR_LIMIT)) by (nonlinear_arith);
        assert(ONE * (16 * FACTOR_LIMIT) == 0x100_0000_0000_0000_0000_0000_0000_0000);
    }
    round(a * b, ONE)
}

/// Rounds the sum of two values.
pub(crate) fn sum_of(a: u128, b: u128) -> (v: u128)
    requires
        a <= TERM_LIMIT,
        b <= TERM_LIMIT,
    ensures
        v == sum(a as nat, b as nat),
        v <= 2 * (a + b) + 1,
{
    round(a + b, 1)
}

/// Rounds the difference of two values.
pub(crate) fn difference_of(a: u128, b: u128) -> (v: u128)
    requires
        b <= a <= TERM_LIMIT,
    ensures
        v == difference(a as nat, b as nat),
        v <= 2 * (a - b) + 1,
{
    round(a - b, 1)
}

/// Rounds the value `a` taken `k` times.
pub(crate) fn multiple_of(a: u128, k: u64) -> (v: u128)
    requires
        a <= MULTIPLE_LIMIT,
        k <= WHOLE_LIMIT,
    ensures
        v == multiple(a as nat, k as nat),
        v <= a * 0x8_0000_0000 + 1,
{
    proof {
        lemma_product_within(a as nat, k as nat, a as nat, WHOLE_LIMIT as nat);
        assert(a * WHOLE_LIMIT <= MULTIPLE_LIMIT * WHOLE_LIMIT);
    }
    round(a * k as u128, 1)
}

} // verus!
