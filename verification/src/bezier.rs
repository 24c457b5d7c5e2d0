//! Cubic Bezier sampling through a Newton parameter search.
//!
//! A segment between two nodes is a cubic Bezier whose inner control points
//! carry the tangent handles.  Sampling treats the query position as the
//! wanted key-axis value, runs a fixed number of Newton rounds to find the
//! curve parameter whose key-axis component matches it, and maps that
//! parameter linearly onto the output-axis span of the segment.  A vanishing
//! slope ends the search early and yields the current parameter guess
//! itself.  All arithmetic is saturating fixed point.

use vstd::prelude::*;

verus! {

use crate::fixed::{SCALE, sat, fmul, fdiv, clamp_wide, fx_mul, fx_div, sat_add, sat_sub};

/// Cubic coefficient of the easing basis `((a * t + b) * t + c) * t` built
/// from the inner control points' key-axis values `a1` and `a2`.
pub open spec fn coef_a(a1: int, a2: int) -> int {
    sat(SCALE - 3 * a2 + 3 * a1)
}

/// Quadratic coefficient of the easing basis.
pub open spec fn coef_b(a1: int, a2: int) -> int {
    sat(3 * a2 - 6 * a1)
}

/// Linear coefficient of the easing basis.
pub open spec fn coef_c(a1: int) -> int {
    sat(3 * a1)
}

/// Cubic coefficient of the basis' derivative.
pub open spec fn slope_coef_a(a1: int, a2: int) -> int {
    sat(3 * SCALE - 9 * a2 + 9 * a1)
}

/// Quadratic coefficient of the basis' derivative.
pub open spec fn slope_coef_b(a1: int, a2: int) -> int {
    sat(6 * a2 - 12 * a1)
}

/// The easing polynomial at parameter `t`.
pub open spec fn curve_at(t: int, a1: int, a2: int) -> int {
    let u1 = fmul(coef_a(a1, a2), t);
    let u2 = sat(u1 + coef_b(a1, a2));
    let u3 = fmul(u2, t);
    let u4 = sat(u3 + coef_c(a1));
    fmul(u4, t)
}

/// The easing polynomial's derivative at parameter `t`.
pub open spec fn slope_at(t: int, a1: int, a2: int) -> int {
    let v1 = fmul(fmul(slope_coef_a(a1, a2), t), t);
    let v2 = fmul(slope_coef_b(a1, a2), t);
    sat(sat(v1 + v2) + coef_c(a1))
}

/// Up to `fuel` Newton rounds from `guess` toward the parameter whose
/// key-axis value is `x`; the boolean reports an early exit on a vanishing
/// slope.
pub open spec fn newton(guess: int, x: int, a1: int, a2: int, fuel: nat) -> (int, bool)
    decreases fuel,
{
    if fuel == 0 {
        (guess, false)
    } else {
        let sl = slope_at(guess, a1, a2);
        if sl == 0 {
            (guess, true)
        } else {
            let off = sat(curve_at(guess, a1, a2) - x);
            newton(sat(guess - fdiv(off, sl)), x, a1, a2, (fuel - 1) as nat)
        }
    }
}

/// The sampled output of the segment's Bezier at key-axis position `x`:
/// four Newton rounds from `x` itself, then the parameter mapped onto the
/// output-axis span; an early exit returns the parameter unmapped.
pub open spec fn bezier_at(x: int, p0y: int, p1x: int, p2x: int, p3y: int) -> int {
    let gr = newton(x, x, p1x, p2x, 4);
    if gr.1 {
        gr.0
    } else {
        sat(fmul(gr.0, sat(p3y - p0y)) + p0y)
    }
}

/// The easing basis' cubic coefficient, executable.
fn coef_a_x(a1: i64, a2: i64) -> (r: i64)
    ensures
        r as int == coef_a(a1 as int, a2 as int),
{
    clamp_wide(SCALE as i128 - 3 * (a2 as i128) + 3 * (a1 as i128))
}

/// The easing basis' quadratic coefficient, executable.
fn coef_b_x(a1: i64, a2: i64) -> (r: i64)
    ensures
        r as int == coef_b(a1 as int, a2 as int),
{
    clamp_wide(3 * (a2 as i128) - 6 * (a1 as i128))
}

/// The easing basis' linear coefficient, executable.
fn coef_c_x(a1: i64) -> (r: i64)
    ensures
        r as int == coef_c(a1 as int),
{
    clamp_wide(3 * (a1 as i128))
}

/// The easing polynomial at `t`, executable.
fn curve_value(t: i64, a1: i64, a2: i64) -> (r: i64)
    ensures
        r as int == curve_at(t as int, a1 as int, a2 as int),
{
    let u1 = fx_mul(coef_a_x(a1, a2), t);
    let u2 = sat_add(u1, coef_b_x(a1, a2));
    let u3 = fx_mul(u2, t);
    let u4 = sat_add(u3, coef_c_x(a1));
    fx_mul(u4, t)
}

/// The easing polynomial's derivative at `t`, executable.
fn slope_value(t: i64, a1: i64, a2: i64) -> (r: i64)
    ensures
        r as int == slope_at(t as int, a1 as int, a2 as int),
{
    let ca = clamp_wide(3 * (SCALE as i128) - 9 * (a2 as i128) + 9 * (a1 as i128));
    let cb = clamp_wide(6 * (a2 as i128) - 12 * (a1 as i128));
    let v1 = fx_mul(fx_mul(ca, t), t);
    let v2 = fx_mul(cb, t);
    sat_add(sat_add(v1, v2), coef_c_x(a1))
}

/// Resolves the Bezier parameter for `x` by Newton's method and maps it
/// onto the output axis.
pub fn bezier_value(x: i64, p0y: i64, p1x: i64, p2x: i64, p3y: i64) -> (r: i64)
    ensures
        r as int == bezier_at(x as int, p0y as int, p1x as int, p2x as int, p3y as int),
{
    let mut guess: i64 = x;
    let mut round: u64 = 0;
    while round < 4
        invariant
            round <= 4,
            newton(x as int, x as int, p1x as int, p2x as int, 4) == newton(
                guess as int,
                x as int,
                p1x as int,
                p2x as int,
                (4 - round) as nat,
            ),
        decreases 4 - round,
    {
        let sl = slope_value(guess, p1x, p2x);
        if sl == 0 {
            assert(newton(guess as int, x as int, p1x as int, p2x as int, (4 - round) as nat)
                == (guess as int, true));
            return guess;
        }
        let off = sat_sub(curve_value(guess, p1x, p2x), x);
        let step = fx_div(off, sl);
        proof {
            assert(newton(guess as int, x as int, p1x as int, p2x as int, (4 - round) as nat)
                == newton(
                sat(guess as int - fdiv(off as int, sl as int)),
                x as int,
                p1x as int,
                p2x as int,
                (4 - round - 1) as nat,
            ));
        }
        guess = sat_sub(guess, step);
        round = round + 1;
    }
    sat_add(fx_mul(guess, sat_sub(p3y, p0y)), p0y)
}

} // verus!
