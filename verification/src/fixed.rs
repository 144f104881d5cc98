//! Whole-number arithmetic on fractions.
//!
//! A fraction is held as a count of millionths: `ONE` stands for 1. Amplitudes
//! are kept between 0 and `AMP_MAX`; positions lie on a circle and are kept
//! between 0 and its circumference. Every division rounds towards minus
//! infinity, as `/` does on `int`.

use vstd::prelude::*;
use vstd::arithmetic::div_mod::{
    lemma_fundamental_div_mod,
    lemma_fundamental_div_mod_converse,
    lemma_mod_pos_bound,
};

verus! {

/// The number that stands for 1.
pub const ONE: i64 = 1_000_000;

/// The largest amplitude that is kept: a million, in millionths.
pub const AMP_MAX: i64 = 1_000_000_000_000;

/// The largest distance and the largest width that `gaussian` takes: a
/// thousand, in millionths.
pub const SPAN_MAX: i64 = 1_000_000_000;

/// The number of squarings by which `decayed` raises its base to a power.
pub const SQUARINGS: u32 = 10;

/// `x` brought into the range of amplitudes.
pub open spec fn clamp_amp(x: int) -> int {
    if x < 0 {
        0
    } else if x > AMP_MAX {
        AMP_MAX as int
    } else {
        x
    }
}

/// The amplitude that follows `prev` when it is drawn towards `target`: `prev`
/// plus the fraction `coeff` of the way to `target`, both taken as amplitudes.
pub open spec fn smoothed(prev: int, target: int, coeff: int) -> int {
    let p = clamp_amp(prev);
    let t = clamp_amp(target);
    clamp_amp(p + ((t - p) * coeff) / (ONE as int))
}

/// The point of the circle of circumference `circ` that `x` falls on.
pub open spec fn wrapped(x: int, circ: int) -> int {
    x % circ
}

/// The shortest way round the circle between `a` and `b`.
pub open spec fn cyclic_distance(a: int, b: int, circ: int) -> int {
    let d = (a - b) % circ;
    if d <= circ - d {
        d
    } else {
        circ - d
    }
}

/// The shortest way from `from` to `to`, positive in the direction of rising
/// positions.
pub open spec fn signed_gap(from: int, to: int, circ: int) -> int {
    let d = (to - from) % circ;
    if d <= circ - d {
        d
    } else {
        d - circ
    }
}

/// The position that follows `pos` when it is drawn the fraction `coeff` of the
/// shortest way towards `target`.
pub open spec fn smoothed_position(pos: int, target: int, coeff: int, circ: int) -> int {
    (pos + (signed_gap(pos, target, circ) * coeff) / (ONE as int)) % circ
}

/// Half of `top`, `times` times over.
pub open spec fn halved(top: int, times: nat) -> int
    decreases times,
{
    if times == 0 {
        top
    } else {
        halved(top, (times - 1) as nat) / 2
    }
}

/// `y` squared `n` times over, each square brought back to millionths.
pub open spec fn squared_times(y: int, n: nat) -> int
    decreases n,
{
    if n == 0 {
        y
    } else {
        let h = squared_times(y, (n - 1) as nat);
        (h * h) / (ONE as int)
    }
}

/// An approximation of e to the power of minus `x`, for `x >= 0`: the
/// 1024th power of `1 - x / 1024`, computed by ten squarings.
pub open spec fn decayed(x: int) -> int {
    let base = ONE - x / 1024;
    if base <= 0 {
        0
    } else {
        squared_times(base, SQUARINGS as nat)
    }
}

/// The height, at `distance` from its mean, of a bell curve of width `sigma`
/// and height 1. A curve of no width is 1 at its mean and 0 elsewhere.
pub open spec fn bell(distance: int, sigma: int) -> int {
    if sigma <= 0 {
        if distance == 0 {
            ONE as int
        } else {
            0
        }
    } else {
        decayed((distance * distance * ONE) / (2 * sigma * sigma))
    }
}

pub(crate) proof fn lemma_product_bound(a: int, b: int, ma: int, mb: int)
    by (nonlinear_arith)
    requires
        -ma <= a <= ma,
        -mb <= b <= mb,
    ensures
        -(ma * mb) <= a * b <= ma * mb,
{
}

pub(crate) proof fn lemma_quotient_bound(x: int, d: int, bound: int)
    requires
        -bound <= x <= bound,
        d > 0,
    ensures
        -bound <= x / d <= bound,
{
    vstd::arithmetic::div_mod::lemma_fundamental_div_mod(x, d);
    vstd::arithmetic::div_mod::lemma_mod_bound(x, d);
    let q = x / d;
    let r = x % d;
    assert(-bound <= q <= bound) by (nonlinear_arith)
        requires
            x == d * q + r,
            0 <= r < d,
            -bound <= x <= bound,
            d > 0,
    ;
}

pub(crate) proof fn lemma_squared_times_bounds(y: int, n: nat)
    requires
        0 <= y <= ONE,
    ensures
        0 <= squared_times(y, n) <= ONE,
    decreases n,
{
    if n > 0 {
        lemma_squared_times_bounds(y, (n - 1) as nat);
        let h = squared_times(y, (n - 1) as nat);
        assert(0 <= h * h <= ONE * ONE) by (nonlinear_arith)
            requires
                0 <= h <= ONE,
        ;
    }
}

/// The weight of a bell curve is never negative and never more than 1.
pub proof fn lemma_bell_bounds(distance: int, sigma: int)
    ensures
        0 <= bell(distance, sigma) <= ONE,
{
    if sigma > 0 {
        let x = (distance * distance * ONE) / (2 * sigma * sigma);
        assert(distance * distance * ONE >= 0 && 2 * sigma * sigma > 0) by (nonlinear_arith)
            requires
                sigma > 0,
        ;
        vstd::arithmetic::div_mod::lemma_div_pos_is_pos(
            distance * distance * ONE,
            2 * sigma * sigma,
        );
        let base = ONE - x / 1024;
        if base > 0 {
            lemma_squared_times_bounds(base, SQUARINGS as nat);
        }
    }
}

/// The quotient and the remainder of `n` by `d`, the remainder never negative.
pub fn div_rem_floor(n: i128, d: i128) -> (qr: (i128, i128))
    requires
        d > 0,
        n > i128::MIN,
    ensures
        qr.0 == (n as int) / (d as int),
        qr.1 == (n as int) % (d as int),
        0 <= qr.1 < d,
{
    if n >= 0 {
        proof {
            lemma_mod_pos_bound(n as int, d as int);
        }
        (n / d, n % d)
    } else {
        let m: i128 = -n;
        let q: i128 = m / d;
        let r: i128 = m % d;
        proof {
            lemma_fundamental_div_mod(m as int, d as int);
            lemma_mod_pos_bound(m as int, d as int);
            vstd::arithmetic::div_mod::lemma_div_pos_is_pos(m as int, d as int);
            vstd::arithmetic::div_mod::lemma_div_is_ordered_by_denominator(m as int, 1, d as int);
        }
        if r == 0 {
            proof {
                assert(n == (-(q as int)) * d + 0) by (nonlinear_arith)
                    requires
                        m == d * q + r,
                        r == 0,
                        n == -m,
                ;
                lemma_fundamental_div_mod_converse(n as int, d as int, -(q as int), 0);
            }
            (-q, 0)
        } else {
            proof {
                assert(n == (-(q as int) - 1) * d + (d - r)) by (nonlinear_arith)
                    requires
                        m == d * q + r,
                        n == -m,
                ;
                lemma_fundamental_div_mod_converse(
                    n as int,
                    d as int,
                    -(q as int) - 1,
                    d - r,
                );
            }
            (-q - 1, d - r)
        }
    }
}

/// `x` brought into the range of amplitudes.
pub fn clamp_amplitude(x: i128) -> (r: i64)
    ensures
        r == clamp_amp(x as int),
        0 <= r <= AMP_MAX,
{
    if x < 0 {
        0
    } else if x > AMP_MAX as i128 {
        AMP_MAX
    } else {
        x as i64
    }
}

/// One step of exponential smoothing of an amplitude.
pub fn smooth(prev: i64, target: i64, coeff: i64) -> (r: i64)
    ensures
        r == smoothed(prev as int, target as int, coeff as int),
        0 <= r <= AMP_MAX,
{
    let p: i128 = clamp_amplitude(prev as i128) as i128;
    let t: i128 = clamp_amplitude(target as i128) as i128;
    let diff: i128 = t - p;
    proof {
        lemma_product_bound(
            diff as int,
            coeff as int,
            AMP_MAX as int,
            0x8000_0000_0000_0000,
        );
    }
    let (step, _) = div_rem_floor(diff * (coeff as i128), ONE as i128);
    proof {
        vstd::arithmetic::div_mod::lemma_div_is_ordered(
            -(AMP_MAX * 0x8000_0000_0000_0000int),
            diff * coeff,
            ONE as int,
        );
        vstd::arithmetic::div_mod::lemma_div_is_ordered(
            diff * coeff,
            AMP_MAX * 0x8000_0000_0000_0000int,
            ONE as int,
        );
    }
    clamp_amplitude(p + step)
}

/// The point of the circle of circumference `circ` that `x` falls on.
pub fn wrap(x: i64, circ: i64) -> (r: i64)
    requires
        circ > 0,
    ensures
        r == wrapped(x as int, circ as int),
        0 <= r < circ,
{
    let (_, r) = div_rem_floor(x as i128, circ as i128);
    r as i64
}

/// The shortest way round the circle between `a` and `b`.
pub fn distance_round(a: i64, b: i64, circ: i64) -> (r: i64)
    requires
        circ > 0,
    ensures
        r == cyclic_distance(a as int, b as int, circ as int),
        0 <= 2 * r <= circ,
{
    let (_, d) = div_rem_floor(a as i128 - b as i128, circ as i128);
    let back: i128 = circ as i128 - d;
    if d <= back {
        d as i64
    } else {
        back as i64
    }
}

/// The shortest way from `from` to `to` round the circle, positive in the
/// direction of rising positions.
pub fn gap_round(from: i64, to: i64, circ: i64) -> (r: i64)
    requires
        circ > 0,
    ensures
        r == signed_gap(from as int, to as int, circ as int),
        -circ < 2 * r <= circ,
{
    let (_, d) = div_rem_floor(to as i128 - from as i128, circ as i128);
    let back: i128 = circ as i128 - d;
    if d <= back {
        d as i64
    } else {
        (d - circ as i128) as i64
    }
}

/// One step of smoothing of a position on the circle.
pub fn smooth_position(pos: i64, target: i64, coeff: i64, circ: i64) -> (r: i64)
    requires
        circ > 0,
    ensures
        r == smoothed_position(pos as int, target as int, coeff as int, circ as int),
        0 <= r < circ,
{
    let (_, d) = div_rem_floor(target as i128 - pos as i128, circ as i128);
    let back: i128 = circ as i128 - d;
    let gap: i128 = if d <= back { d } else { d - circ as i128 };
    proof {
        lemma_product_bound(
            gap as int,
            coeff as int,
            0x4000_0000_0000_0000,
            0x8000_0000_0000_0000,
        );
    }
    let (shift, _) = div_rem_floor(gap * (coeff as i128), ONE as i128);
    proof {
        vstd::arithmetic::div_mod::lemma_div_is_ordered(
            -0x2000_0000_0000_0000_0000_0000_0000_0000int,
            gap * coeff,
            ONE as int,
        );
        vstd::arithmetic::div_mod::lemma_div_is_ordered(
            gap * coeff,
            0x2000_0000_0000_0000_0000_0000_0000_0000int,
            ONE as int,
        );
    }
    let (_, r) = div_rem_floor(pos as i128 + shift, circ as i128);
    r as i64
}

/// The height of a bell curve of width `sigma` at `distance` from its mean.
pub fn gaussian(distance: i64, sigma: i64) -> (r: i64)
    requires
        -SPAN_MAX <= distance <= SPAN_MAX,
        sigma <= SPAN_MAX,
    ensures
        r == bell(distance as int, sigma as int),
        0 <= r <= ONE,
{
    proof {
        lemma_bell_bounds(distance as int, sigma as int);
    }
    if sigma <= 0 {
        if distance == 0 {
            ONE
        } else {
            0
        }
    } else {
        let d: i128 = distance as i128;
        let s: i128 = sigma as i128;
        proof {
            lemma_product_bound(d as int, d as int, SPAN_MAX as int, SPAN_MAX as int);
            lemma_product_bound(s as int, s as int, SPAN_MAX as int, SPAN_MAX as int);
            assert(d * d >= 0 && s * s > 0) by (nonlinear_arith)
                requires
                    s > 0,
            ;
        }
        let dd: i128 = d * d;
        let ss: i128 = s * s;
        let x: i128 = (dd * (ONE as i128)) / (2 * ss);
        proof {
            assert(dd * ONE == d * d * ONE);
            assert(2 * ss == 2 * s * s) by (nonlinear_arith)
                requires
                    ss == s * s,
            ;
            vstd::arithmetic::div_mod::lemma_div_pos_is_pos(dd * ONE, 2 * ss);
        }
        let base: i128 = ONE as i128 - x / 1024;
        if base <= 0 {
            0
        } else {
            let mut y: i128 = base;
            let mut n: u32 = 0;
            while n < SQUARINGS
                invariant
                    n <= SQUARINGS,
                    0 < base <= ONE,
                    0 <= y <= ONE,
                    y == squared_times(base as int, n as nat),
                decreases SQUARINGS - n,
            {
                proof {
                    lemma_squared_times_bounds(base as int, (n + 1) as nat);
                    assert(0 <= y * y <= ONE * ONE) by (nonlinear_arith)
                        requires
                            0 <= y <= ONE,
                    ;
                }
                y = (y * y) / (ONE as i128);
                n += 1;
            }
            y as i64
        }
    }
}

} // verus!
