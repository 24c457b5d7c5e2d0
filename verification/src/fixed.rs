//! Saturating fixed-point arithmetic for the timeline's scalar values.
//!
//! Both axes of the curve count in steps of `1 / SCALE` of a unit, stored in
//! an `i64`.  Every operation clamps its result into the symmetric range
//! `[-SAT_BOUND, SAT_BOUND]`, so curve evaluation is total: no input makes
//! it overflow or panic.

use vstd::prelude::*;

verus! {

use vstd::math::abs;

/// Fixed-point steps in one unit: a scalar of `1000` stands for `1.0`.
pub const SCALE: i64 = 1000;

/// Magnitude edge of the fixed-point range; results saturate here.
pub const SAT_BOUND: i64 = i64::MAX;

/// `v` clamped into the fixed-point range.
pub open spec fn sat(v: int) -> int {
    if v > SAT_BOUND as int {
        SAT_BOUND as int
    } else if v < -(SAT_BOUND as int) {
        -(SAT_BOUND as int)
    } else {
        v
    }
}

/// Division truncating toward zero, as machine division does; zero when the
/// divisor is zero.
pub open spec fn tdiv(a: int, b: int) -> int {
    if b == 0 {
        0
    } else if (a < 0) == (b < 0) {
        (abs(a) / abs(b)) as int
    } else {
        -((abs(a) / abs(b)) as int)
    }
}

/// Product of two fixed-point scalars: the wide product scaled back down.
pub open spec fn fmul(a: int, b: int) -> int {
    sat(tdiv(a * b, SCALE as int))
}

/// Quotient of two fixed-point scalars.
pub open spec fn fdiv(a: int, b: int) -> int {
    sat(tdiv(a * (SCALE as int), b))
}

/// Clamps a wide intermediate into the fixed-point range.
pub fn clamp_wide(v: i128) -> (r: i64)
    ensures
        r as int == sat(v as int),
{
    if v > SAT_BOUND as i128 {
        SAT_BOUND
    } else if v < -(SAT_BOUND as i128) {
        -SAT_BOUND
    } else {
        v as i64
    }
}

/// Truncating signed division on wide intermediates.
fn tdiv_wide(a: i128, b: i128) -> (r: i128)
    requires
        b != 0,
        a != i128::MIN,
        b != i128::MIN,
    ensures
        r as int == tdiv(a as int, b as int),
        abs(r as int) <= abs(a as int),
{
    let ua: u128 = if a < 0 {
        (-a) as u128
    } else {
        a as u128
    };
    let ub: u128 = if b < 0 {
        (-b) as u128
    } else {
        b as u128
    };
    let q: u128 = ua / ub;
    assert(ua as int == abs(a as int) && ub as int == abs(b as int));
    assert(q as int == abs(a as int) / abs(b as int));
    assert(q <= ua) by {
        vstd::arithmetic::div_mod::lemma_div_is_ordered_by_denominator(
            ua as int,
            1,
            ub as int,
        );
    }
    if (a < 0) != (b < 0) {
        -(q as i128)
    } else {
        q as i128
    }
}

/// Saturating sum of two scalars.
pub fn sat_add(a: i64, b: i64) -> (r: i64)
    ensures
        r as int == sat(a + b),
{
    clamp_wide(a as i128 + b as i128)
}

/// Saturating difference of two scalars.
pub fn sat_sub(a: i64, b: i64) -> (r: i64)
    ensures
        r as int == sat(a - b),
{
    clamp_wide(a as i128 - b as i128)
}

/// Saturating negation of a scalar.
pub fn sat_neg(a: i64) -> (r: i64)
    ensures
        r as int == sat(-(a as int)),
{
    if a == i64::MIN {
        i64::MAX
    } else {
        -a
    }
}

/// Fixed-point multiply, saturating.
pub fn fx_mul(a: i64, b: i64) -> (r: i64)
    ensures
        r as int == fmul(a as int, b as int),
{
    proof {
        lemma_product_fits_wide(a as int, b as int);
    }
    let p: i128 = (a as i128) * (b as i128);
    let q = tdiv_wide(p, SCALE as i128);
    clamp_wide(q)
}

/// Fixed-point divide, saturating; the divisor must be nonzero.
pub fn fx_div(a: i64, b: i64) -> (r: i64)
    requires
        b != 0,
    ensures
        r as int == fdiv(a as int, b as int),
{
    proof {
        lemma_product_fits_wide(a as int, SCALE as int);
    }
    let p: i128 = (a as i128) * (SCALE as i128);
    let q = tdiv_wide(p, b as i128);
    clamp_wide(q)
}

/// The product of two narrow scalars stays well inside the wide range.
proof fn lemma_product_fits_wide(a: int, b: int)
    requires
        i64::MIN <= a <= i64::MAX,
        i64::MIN <= b <= i64::MAX,
    ensures
        -(i128::MAX as int) < a * b < i128::MAX as int,
{
    assert(-(i128::MAX as int) < a * b < i128::MAX as int) by (nonlinear_arith)
        requires
            -0x8000000000000000 <= a <= 0x7fffffffffffffff,
            -0x8000000000000000 <= b <= 0x7fffffffffffffff,
    ;
}

} // verus!
