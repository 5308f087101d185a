//! Poses `(x, y, theta)` and the conversion pair to and from rigid
//! transforms.
//!
//! Angles are fixed-point radians (`SCALE` ticks per radian), normalized to
//! the half-open interval `(-pi, pi]`.  Sine, cosine and the two-argument
//! arctangent are evaluated by fixed-point polynomials after range
//! reduction; every function states its result exactly as the integer
//! arithmetic it performs.

use vstd::prelude::*;
use vstd::arithmetic::div_mod::lemma_div_is_ordered_by_denominator;
use crate::numeric::{
    SCALE, TRANS_LIMIT, abs_i, lemma_abs_mul_bound, lemma_div_bound_nonneg, lemma_div_mag,
    lemma_div_exact_multiple, div_floor_i128,
};
use crate::transform::{
    RigidTransform2D, rot_wf, trans_bounded, transform_wf, normalize_spec, normalize_rotation,
    lemma_rot_bounds,
};

verus! {

/// Fixed-point pi (ticks per radian: `SCALE`).
pub const PI_FP: i64 = 3373259426;

/// Fixed-point 2*pi.
pub const TWO_PI_FP: i64 = 6746518852;

/// Fixed-point pi/2.
pub const HALF_PI_FP: i64 = 1686629713;

/// Fixed-point pi/4.
pub const QUARTER_PI_FP: i64 = 843314856;

/// Fixed-point 3*pi/4.
pub const THREE_QUARTER_PI_FP: i64 = 2529944569;

/// Fixed-point tan(pi/8), the octant split of the arctangent.
pub const TAN_PI8_FP: i64 = 444758425;

/// Magnitude bound of a reduced angle (a little over pi/4).
pub const RED_LIMIT: i64 = 843314859;

/// Fixed-point 1/3, 1/5, ..., 1/21: arctangent series coefficients.
pub const ATAN_C3: i64 = 357913941;

pub const ATAN_C5: i64 = 214748364;

pub const ATAN_C7: i64 = 153391689;

pub const ATAN_C9: i64 = 119304647;

pub const ATAN_C11: i64 = 97612893;

pub const ATAN_C13: i64 = 82595524;

pub const ATAN_C15: i64 = 71582788;

pub const ATAN_C17: i64 = 63161283;

pub const ATAN_C19: i64 = 56512727;

pub const ATAN_C21: i64 = 51130563;

/// A robot pose: position in ticks, heading in fixed-point radians.
#[derive(Clone, Copy, Debug, PartialEq, Eq, Structural)]
pub struct Pose {
    pub x: i64,
    pub y: i64,
    pub theta: i64,
}

/// Heading normalized to `(-pi, pi]`, position within translation range.
pub open spec fn pose_wf(p: Pose) -> bool {
    &&& -PI_FP < p.theta <= PI_FP
    &&& -TRANS_LIMIT <= p.x <= TRANS_LIMIT
    &&& -TRANS_LIMIT <= p.y <= TRANS_LIMIT
}

/// The representative of `a` in `(-pi, pi]`, reached by steps of 2*pi.
pub open spec fn norm_angle_spec(a: int) -> int
    decreases abs_i(a) + if a <= -(PI_FP as int) {
        1nat
    } else {
        0nat
    },
{
    if a > PI_FP {
        norm_angle_spec(a - TWO_PI_FP)
    } else if a <= -(PI_FP as int) {
        norm_angle_spec(a + TWO_PI_FP)
    } else {
        a
    }
}

/// The normalized angle lies in `(-pi, pi]`.
pub proof fn lemma_norm_angle_range(a: int)
    ensures
        -(PI_FP as int) < norm_angle_spec(a) <= PI_FP as int,
    decreases abs_i(a) + if a <= -(PI_FP as int) {
        1nat
    } else {
        0nat
    },
{
    if a > PI_FP {
        lemma_norm_angle_range(a - TWO_PI_FP);
    } else if a <= -(PI_FP as int) {
        lemma_norm_angle_range(a + TWO_PI_FP);
    }
}

/// Normalizes an angle to `(-pi, pi]` by whole turns.
pub fn normalize_angle(a: i64) -> (r: i64)
    requires
        -0x4000000000000000 <= a <= 0x4000000000000000,
    ensures
        r as int == norm_angle_spec(a as int),
        -PI_FP < r <= PI_FP,
{
    let mut v: i64 = a;
    while v > PI_FP
        invariant
            norm_angle_spec(a as int) == norm_angle_spec(v as int),
            v >= -0x4000000000000000 - TWO_PI_FP,
        decreases v + 0x4000000000000000 + TWO_PI_FP,
    {
        v = v - TWO_PI_FP;
    }
    while v <= -PI_FP
        invariant
            norm_angle_spec(a as int) == norm_angle_spec(v as int),
            v <= PI_FP,
            v >= -0x4000000000000000 - TWO_PI_FP,
        decreases PI_FP - v,
    {
        v = v + TWO_PI_FP;
    }
    proof {
        assert(norm_angle_spec(v as int) == v as int);
    }
    v
}

/// Fixed-point cosine polynomial on a reduced angle, Horner form of the
/// series `1 - x^2/2 + x^4/24 - x^6/720 + x^8/40320 - x^10/3628800`.
pub open spec fn cos_poly_spec(r: int) -> int {
    let s = SCALE as int;
    let u = (r * r) / s;
    let a5 = s - u / 90;
    let a4 = s - (u * a5) / (56 * s);
    let a3 = s - (u * a4) / (30 * s);
    let a2 = s - (u * a3) / (12 * s);
    s - (u * a2) / (2 * s)
}

/// Fixed-point sine polynomial on a reduced angle, Horner form of the
/// series `x - x^3/6 + x^5/120 - x^7/5040 + x^9/362880 - x^11/39916800`.
pub open spec fn sin_poly_spec(r: int) -> int {
    let s = SCALE as int;
    let u = (r * r) / s;
    let a5 = s - u / 110;
    let a4 = s - (u * a5) / (72 * s);
    let a3 = s - (u * a4) / (42 * s);
    let a2 = s - (u * a3) / (20 * s);
    let a1 = s - (u * a2) / (6 * s);
    (r * a1) / s
}

/// Quadrant reduction: an angle within one step of `(-pi, pi]` becomes a
/// reduced angle of magnitude at most a little over pi/4, and a quadrant
/// tag in `{0, 1, -1, 2}`.
pub open spec fn reduce_spec(theta: int) -> (int, int) {
    if theta > THREE_QUARTER_PI_FP {
        (theta - PI_FP, 2)
    } else if theta > QUARTER_PI_FP {
        (theta - HALF_PI_FP, 1)
    } else if theta >= -(QUARTER_PI_FP as int) {
        (theta, 0)
    } else if theta >= -(THREE_QUARTER_PI_FP as int) {
        (theta + HALF_PI_FP, -1)
    } else {
        (theta + PI_FP, 2)
    }
}

/// Fixed-point cosine of an angle in `(-pi, pi]`.
pub open spec fn cos_fp_spec(theta: int) -> int {
    let rq = reduce_spec(theta);
    if rq.1 == 0 {
        cos_poly_spec(rq.0)
    } else if rq.1 == 1 {
        -sin_poly_spec(rq.0)
    } else if rq.1 == -1 {
        sin_poly_spec(rq.0)
    } else {
        -cos_poly_spec(rq.0)
    }
}

/// Fixed-point sine of an angle in `(-pi, pi]`.
pub open spec fn sin_fp_spec(theta: int) -> int {
    let rq = reduce_spec(theta);
    if rq.1 == 0 {
        sin_poly_spec(rq.0)
    } else if rq.1 == 1 {
        cos_poly_spec(rq.0)
    } else if rq.1 == -1 {
        -cos_poly_spec(rq.0)
    } else {
        -sin_poly_spec(rq.0)
    }
}

/// One Horner step of the sine/cosine chain stays within `[0, S/2]`.
proof fn lemma_sincos_step(u: int, a: int, f: int)
    requires
        0 <= u <= SCALE as int,
        0 <= a <= SCALE as int,
        2 <= f <= 128,
    ensures
        0 <= (u * a) / (f * (SCALE as int)) <= 536870912,
{
    let s = SCALE as int;
    assert(0 <= u * a <= s * s) by (nonlinear_arith)
        requires
            0 <= u <= s,
            0 <= a <= s,
    ;
    assert(1 <= 2 * s <= f * s) by (nonlinear_arith)
        requires
            2 <= f,
            s == 1073741824,
    ;
    lemma_div_is_ordered_by_denominator(u * a, 2 * s, f * s);
    lemma_div_bound_nonneg(u * a, s * s, 2 * s);
    assert(s * s == (2 * s) * 536870912) by (nonlinear_arith)
        requires
            s == 1073741824,
    ;
    lemma_div_exact_multiple(536870912, 2 * s);
    lemma_div_bound_nonneg(u * a, u * a, f * s);
}

/// The squared reduced angle, rescaled, stays within `[0, S]`.
proof fn lemma_reduced_square(r: int)
    requires
        -RED_LIMIT <= r <= RED_LIMIT,
    ensures
        0 <= (r * r) / (SCALE as int) <= SCALE as int,
{
    let s = SCALE as int;
    assert(0 <= r * r <= s * s) by (nonlinear_arith)
        requires
            -RED_LIMIT <= r <= RED_LIMIT,
            RED_LIMIT == 843314859,
            s == 1073741824,
    ;
    lemma_div_bound_nonneg(r * r, s * s, s);
    lemma_div_exact_multiple(s, s);
}

/// The cosine polynomial of a reduced angle is strictly positive and at
/// most `SCALE`; the sine polynomial has magnitude below `SCALE`.
pub proof fn lemma_poly_ranges(r: int)
    requires
        -RED_LIMIT <= r <= RED_LIMIT,
    ensures
        536870912 <= cos_poly_spec(r) <= SCALE as int,
        -(SCALE as int) < sin_poly_spec(r) < SCALE as int,
{
    let s = SCALE as int;
    let u = (r * r) / s;
    lemma_reduced_square(r);
    // Cosine chain.
    let a5 = s - u / 90;
    lemma_div_bound_nonneg(u, s, 90);
    assert(s / 90 < s);
    let a4 = s - (u * a5) / (56 * s);
    lemma_sincos_step(u, a5, 56);
    let a3 = s - (u * a4) / (30 * s);
    lemma_sincos_step(u, a4, 30);
    let a2 = s - (u * a3) / (12 * s);
    lemma_sincos_step(u, a3, 12);
    lemma_sincos_step(u, a2, 2);
    // Sine chain.
    let b5 = s - u / 110;
    lemma_div_bound_nonneg(u, s, 110);
    let b4 = s - (u * b5) / (72 * s);
    lemma_sincos_step(u, b5, 72);
    let b3 = s - (u * b4) / (42 * s);
    lemma_sincos_step(u, b4, 42);
    let b2 = s - (u * b3) / (20 * s);
    lemma_sincos_step(u, b3, 20);
    let b1 = s - (u * b2) / (6 * s);
    lemma_sincos_step(u, b2, 6);
    assert(0 <= b1 <= s);
    assert(-(RED_LIMIT as int) * s <= r * b1 <= (RED_LIMIT as int) * s) by (nonlinear_arith)
        requires
            -RED_LIMIT <= r <= RED_LIMIT,
            0 <= b1 <= s,
            RED_LIMIT == 843314859,
            s == 1073741824,
    ;
    lemma_div_mag(r * b1, (RED_LIMIT as int) * s, s);
    assert((RED_LIMIT as int) * s == s * (RED_LIMIT as int)) by (nonlinear_arith);
    lemma_div_exact_multiple(RED_LIMIT as int, s);
}

/// The reduced angle of an in-range heading is within `RED_LIMIT`, and the
/// sine/cosine pair of such a heading is never the zero vector.
pub proof fn lemma_sincos_nonzero(theta: int)
    requires
        -(PI_FP as int) - 2 <= theta <= PI_FP as int + 2,
    ensures
        -RED_LIMIT <= reduce_spec(theta).0 <= RED_LIMIT,
        !(cos_fp_spec(theta) == 0 && sin_fp_spec(theta) == 0),
{
    let rq = reduce_spec(theta);
    lemma_poly_ranges(rq.0);
}

/// Computes the fixed-point cosine and sine of a heading in `(-pi, pi]`
/// (with one tick of slack on either side).
fn unit_rotation(theta: i64) -> (r: (i64, i64))
    requires
        -PI_FP - 2 <= theta <= PI_FP + 2,
    ensures
        r.0 as int == cos_fp_spec(theta as int),
        r.1 as int == sin_fp_spec(theta as int),
{
    let red: i64;
    let quad: i64;
    if theta > THREE_QUARTER_PI_FP {
        red = theta - PI_FP;
        quad = 2;
    } else if theta > QUARTER_PI_FP {
        red = theta - HALF_PI_FP;
        quad = 1;
    } else if theta >= -QUARTER_PI_FP {
        red = theta;
        quad = 0;
    } else if theta >= -THREE_QUARTER_PI_FP {
        red = theta + HALF_PI_FP;
        quad = -1;
    } else {
        red = theta + PI_FP;
        quad = 2;
    }
    proof {
        assert((reduce_spec(theta as int).0, reduce_spec(theta as int).1) == (
            red as int,
            quad as int,
        ));
        lemma_sincos_nonzero(theta as int);
        lemma_poly_ranges(red as int);
    }
    let s: i128 = SCALE as i128;
    let rr: i128 = red as i128;
    proof {
        lemma_abs_mul_bound(rr as int, rr as int, RED_LIMIT as int, RED_LIMIT as int);
        lemma_reduced_square(rr as int);
    }
    let u: i128 = div_floor_i128(rr * rr, s);
    // Cosine chain.
    proof {
        crate::numeric::lemma_div_le_self(u as int, 90);
    }
    let a5: i128 = s - div_floor_i128(u, 90);
    proof {
        lemma_abs_mul_bound(u as int, a5 as int, SCALE as int, SCALE as int);
        lemma_sincos_step(u as int, a5 as int, 56);
    }
    let a4: i128 = s - div_floor_i128(u * a5, 56 * s);
    proof {
        lemma_abs_mul_bound(u as int, a4 as int, SCALE as int, SCALE as int);
        lemma_sincos_step(u as int, a4 as int, 30);
    }
    let a3: i128 = s - div_floor_i128(u * a4, 30 * s);
    proof {
        lemma_abs_mul_bound(u as int, a3 as int, SCALE as int, SCALE as int);
        lemma_sincos_step(u as int, a3 as int, 12);
    }
    let a2: i128 = s - div_floor_i128(u * a3, 12 * s);
    proof {
        lemma_abs_mul_bound(u as int, a2 as int, SCALE as int, SCALE as int);
        lemma_sincos_step(u as int, a2 as int, 2);
    }
    let cosv: i128 = s - div_floor_i128(u * a2, 2 * s);
    proof {
        assert(cosv as int == cos_poly_spec(red as int));
    }
    // Sine chain.
    proof {
        crate::numeric::lemma_div_le_self(u as int, 110);
    }
    let b5: i128 = s - div_floor_i128(u, 110);
    proof {
        lemma_abs_mul_bound(u as int, b5 as int, SCALE as int, SCALE as int);
        lemma_sincos_step(u as int, b5 as int, 72);
    }
    let b4: i128 = s - div_floor_i128(u * b5, 72 * s);
    proof {
        lemma_abs_mul_bound(u as int, b4 as int, SCALE as int, SCALE as int);
        lemma_sincos_step(u as int, b4 as int, 42);
    }
    let b3: i128 = s - div_floor_i128(u * b4, 42 * s);
    proof {
        lemma_abs_mul_bound(u as int, b3 as int, SCALE as int, SCALE as int);
        lemma_sincos_step(u as int, b3 as int, 20);
    }
    let b2: i128 = s - div_floor_i128(u * b3, 20 * s);
    proof {
        lemma_abs_mul_bound(u as int, b2 as int, SCALE as int, SCALE as int);
        lemma_sincos_step(u as int, b2 as int, 6);
    }
    let b1: i128 = s - div_floor_i128(u * b2, 6 * s);
    proof {
        lemma_abs_mul_bound(rr as int, b1 as int, RED_LIMIT as int, SCALE as int);
        lemma_div_mag((rr * b1) as int, (RED_LIMIT as int) * (SCALE as int), SCALE as int);
        assert((RED_LIMIT as int) * (SCALE as int) == (SCALE as int) * (RED_LIMIT as int))
            by (nonlinear_arith);
        lemma_div_exact_multiple(RED_LIMIT as int, SCALE as int);
    }
    let sinv: i128 = div_floor_i128(rr * b1, s);
    proof {
        assert(sinv as int == sin_poly_spec(red as int));
    }
    let c: i64;
    let si: i64;
    if quad == 0 {
        c = cosv as i64;
        si = sinv as i64;
    } else if quad == 1 {
        c = -(sinv as i64);
        si = cosv as i64;
    } else if quad == -1 {
        c = sinv as i64;
        si = -(cosv as i64);
    } else {
        c = -(cosv as i64);
        si = -(sinv as i64);
    }
    (c, si)
}

/// Fixed-point arctangent polynomial, Horner form of the odd series
/// `z - z^3/3 + z^5/5 - ... - z^21/21`, for `|z| <= SCALE`.
pub open spec fn atan_poly_spec(z: int) -> int {
    let s = SCALE as int;
    let u = (z * z) / s;
    let a9 = (ATAN_C19 as int) - (u * (ATAN_C21 as int)) / s;
    let a8 = (ATAN_C17 as int) - (u * a9) / s;
    let a7 = (ATAN_C15 as int) - (u * a8) / s;
    let a6 = (ATAN_C13 as int) - (u * a7) / s;
    let a5 = (ATAN_C11 as int) - (u * a6) / s;
    let a4 = (ATAN_C9 as int) - (u * a5) / s;
    let a3 = (ATAN_C7 as int) - (u * a4) / s;
    let a2 = (ATAN_C5 as int) - (u * a3) / s;
    let a1 = (ATAN_C3 as int) - (u * a2) / s;
    let p = s - (u * a1) / s;
    (z * p) / s
}

/// Arctangent of `z/S` for `z` in `[0, S]`, split at tan(pi/8).
pub open spec fn atan_unit_spec(z: int) -> int {
    let s = SCALE as int;
    if z > TAN_PI8_FP {
        (QUARTER_PI_FP as int) + atan_poly_spec(((z - s) * s) / (z + s))
    } else {
        atan_poly_spec(z)
    }
}

/// Two-argument fixed-point arctangent: the heading of the vector `(x, y)`,
/// in `[-pi, pi]` up to representation granularity.
pub open spec fn atan2_spec(y: int, x: int) -> int {
    if x == 0 && y == 0 {
        0
    } else {
        let s = SCALE as int;
        let ax = abs_i(x) as int;
        let ay = abs_i(y) as int;
        let phi = if ay <= ax {
            atan_unit_spec((ay * s) / ax)
        } else {
            (HALF_PI_FP as int) - atan_unit_spec((ax * s) / ay)
        };
        let r0 = if x >= 0 {
            phi
        } else {
            (PI_FP as int) - phi
        };
        if y >= 0 {
            r0
        } else {
            -r0
        }
    }
}

/// One Horner step of the arctangent chain has bounded magnitude.
proof fn lemma_atan_step(u: int, a: int, bound_a: int)
    requires
        0 <= u <= 2 * (SCALE as int),
        -bound_a <= a <= bound_a,
        0 <= bound_a,
    ensures
        -(2 * bound_a) - 1 <= (u * a) / (SCALE as int) <= 2 * bound_a + 1,
{
    let s = SCALE as int;
    lemma_abs_mul_bound(u, a, 2 * s, bound_a);
    assert(2 * s * bound_a == s * (2 * bound_a)) by (nonlinear_arith);
    lemma_div_mag(u * a, s * (2 * bound_a), s);
    lemma_div_exact_multiple(2 * bound_a, s);
}

/// The rescaled square of a near-unit argument stays within `[0, 2S]`.
proof fn lemma_atan_square(z: int)
    requires
        -(SCALE as int) - 2 <= z <= (SCALE as int) + 2,
    ensures
        0 <= (z * z) / (SCALE as int) <= 2 * (SCALE as int),
{
    let s = SCALE as int;
    assert(0 <= z * z <= s * (2 * s)) by (nonlinear_arith)
        requires
            -s - 2 <= z <= s + 2,
            s == 1073741824,
    ;
    lemma_div_bound_nonneg(z * z, s * (2 * s), s);
    lemma_div_exact_multiple(2 * s, s);
}

/// Computes `atan_poly_spec` exactly for near-unit arguments.
fn atan_poly(z: i128) -> (r: i128)
    requires
        -(SCALE as i128) - 2 <= z <= SCALE as i128 + 2,
    ensures
        r as int == atan_poly_spec(z as int),
        -0x1300000000001 <= r <= 0x1300000000001,
{
    let s: i128 = SCALE as i128;
    proof {
        lemma_abs_mul_bound(z as int, z as int, SCALE as int + 2, SCALE as int + 2);
        lemma_atan_square(z as int);
    }
    let u: i128 = div_floor_i128(z * z, s);
    proof {
        lemma_atan_step(u as int, ATAN_C21 as int, 0x8000000);
    }
    let a9: i128 = ATAN_C19 as i128 - div_floor_i128(u * (ATAN_C21 as i128), s);
    proof {
        lemma_atan_step(u as int, a9 as int, 0x40000000);
    }
    let a8: i128 = ATAN_C17 as i128 - div_floor_i128(u * a9, s);
    proof {
        lemma_atan_step(u as int, a8 as int, 0x100000000);
    }
    let a7: i128 = ATAN_C15 as i128 - div_floor_i128(u * a8, s);
    proof {
        lemma_atan_step(u as int, a7 as int, 0x400000000);
    }
    let a6: i128 = ATAN_C13 as i128 - div_floor_i128(u * a7, s);
    proof {
        lemma_atan_step(u as int, a6 as int, 0x1000000000);
    }
    let a5: i128 = ATAN_C11 as i128 - div_floor_i128(u * a6, s);
    proof {
        lemma_atan_step(u as int, a5 as int, 0x4000000000);
    }
    let a4: i128 = ATAN_C9 as i128 - div_floor_i128(u * a5, s);
    proof {
        lemma_atan_step(u as int, a4 as int, 0x10000000000);
    }
    let a3: i128 = ATAN_C7 as i128 - div_floor_i128(u * a4, s);
    proof {
        lemma_atan_step(u as int, a3 as int, 0x40000000000);
    }
    let a2: i128 = ATAN_C5 as i128 - div_floor_i128(u * a3, s);
    proof {
        lemma_atan_step(u as int, a2 as int, 0x100000000000);
    }
    let a1: i128 = ATAN_C3 as i128 - div_floor_i128(u * a2, s);
    proof {
        lemma_atan_step(u as int, a1 as int, 0x400000000000);
    }
    let p: i128 = s - div_floor_i128(u * a1, s);
    proof {
        lemma_abs_mul_bound(z as int, p as int, SCALE as int + 2, 0x900000000000);
        lemma_div_mag((z * p) as int, (SCALE as int) * 0x1300000000000, SCALE as int);
        assert((SCALE as int + 2) * 0x900000000000 <= (SCALE as int) * 0x1300000000000)
            by (nonlinear_arith)
            requires
                SCALE == 1073741824,
        ;
        lemma_div_exact_multiple(0x1300000000000, SCALE as int);
    }
    let r: i128 = div_floor_i128(z * p, s);
    proof {
        assert(r as int == atan_poly_spec(z as int)) by {
            assert(u as int == ((z as int) * (z as int)) / (SCALE as int));
        }
    }
    r
}

/// Computes `atan_unit_spec` exactly for `z` in `[0, S]`.
fn atan_unit(z: i128) -> (r: i128)
    requires
        0 <= z <= SCALE as i128,
    ensures
        r as int == atan_unit_spec(z as int),
        -0x1310000000000 <= r <= 0x1310000000000,
{
    let s: i128 = SCALE as i128;
    if z > TAN_PI8_FP as i128 {
        proof {
            lemma_abs_mul_bound((z - s) as int, SCALE as int, SCALE as int, SCALE as int);
            lemma_div_mag(((z - s) * s) as int, (SCALE as int) * (SCALE as int), (z + s) as int);
            assert(((SCALE as int) * (SCALE as int)) / ((z + s) as int) <= SCALE as int) by {
                lemma_div_is_ordered_by_denominator(
                    (SCALE as int) * (SCALE as int),
                    SCALE as int,
                    (z + s) as int,
                );
                lemma_div_exact_multiple(SCALE as int, SCALE as int);
            }
        }
        let w: i128 = div_floor_i128((z - s) * s, z + s);
        QUARTER_PI_FP as i128 + atan_poly(w)
    } else {
        atan_poly(z)
    }
}

/// Two-argument fixed-point arctangent of `y/x`, exactly `atan2_spec`.
pub fn atan2_fp(y: i64, x: i64) -> (r: i64)
    requires
        -TRANS_LIMIT <= y <= TRANS_LIMIT,
        -TRANS_LIMIT <= x <= TRANS_LIMIT,
    ensures
        r as int == atan2_spec(y as int, x as int),
        -0x1400000000000 <= r <= 0x1400000000000,
{
    if x == 0 && y == 0 {
        return 0;
    }
    let s: i128 = SCALE as i128;
    let ax: i128 = if x >= 0 {
        x as i128
    } else {
        -(x as i128)
    };
    let ay: i128 = if y >= 0 {
        y as i128
    } else {
        -(y as i128)
    };
    proof {
        assert(ax as int == abs_i(x as int) as int);
        assert(ay as int == abs_i(y as int) as int);
        lemma_abs_mul_bound(ay as int, SCALE as int, TRANS_LIMIT as int, SCALE as int);
        lemma_abs_mul_bound(ax as int, SCALE as int, TRANS_LIMIT as int, SCALE as int);
    }
    let phi: i128 = if ay <= ax {
        proof {
            lemma_div_bound_nonneg((ay * s) as int, ((ax as int) * (SCALE as int)) as int,
                ax as int,
            );
            assert(((ax as int) * (SCALE as int)) / (ax as int) == SCALE as int) by {
                lemma_div_exact_multiple(SCALE as int, ax as int);
            }
        }
        let z: i128 = div_floor_i128(ay * s, ax);
        atan_unit(z)
    } else {
        proof {
            lemma_div_bound_nonneg((ax * s) as int, ((ay as int) * (SCALE as int)) as int,
                ay as int,
            );
            assert(((ay as int) * (SCALE as int)) / (ay as int) == SCALE as int) by {
                lemma_div_exact_multiple(SCALE as int, ay as int);
            }
        }
        let z: i128 = div_floor_i128(ax * s, ay);
        HALF_PI_FP as i128 - atan_unit(z)
    };
    let r0: i128 = if x >= 0 {
        phi
    } else {
        PI_FP as i128 - phi
    };
    let r: i128 = if y >= 0 {
        r0
    } else {
        -r0
    };
    r as i64
}

/// The transform standing for a pose: rotation from the heading's
/// normalized sine/cosine pair, translation taken over unchanged.
pub open spec fn pose_to_transform_spec(p: Pose) -> RigidTransform2D {
    let rot = normalize_spec(cos_fp_spec(p.theta as int), sin_fp_spec(p.theta as int));
    RigidTransform2D { c: rot.0 as i64, s: rot.1 as i64, tx: p.x, ty: p.y }
}

/// The pose read off a transform: the rotation block's heading by
/// `atan2`, normalized to `(-pi, pi]`, and the translation unchanged.
pub open spec fn transform_to_pose_spec(t: RigidTransform2D) -> Pose {
    Pose {
        x: t.tx,
        y: t.ty,
        theta: norm_angle_spec(atan2_spec(t.s as int, t.c as int)) as i64,
    }
}

/// Converts a pose to its rigid transform.  The translation carries over
/// unchanged; the rotation block is well-formed.
pub fn pose_to_transform(p: &Pose) -> (t: RigidTransform2D)
    requires
        pose_wf(*p),
    ensures
        t == pose_to_transform_spec(*p),
        transform_wf(t),
        t.tx == p.x,
        t.ty == p.y,
{
    let rot = unit_rotation(p.theta);
    proof {
        lemma_sincos_nonzero(p.theta as int);
    }
    let n = normalize_rotation(rot.0 as i128, rot.1 as i128);
    RigidTransform2D { c: n.0, s: n.1, tx: p.x, ty: p.y }
}

/// Converts a rigid transform to its pose.  The translation carries over
/// unchanged; the heading is normalized to `(-pi, pi]`.
pub fn transform_to_pose(t: &RigidTransform2D) -> (p: Pose)
    requires
        rot_wf(*t),
        trans_bounded(*t, TRANS_LIMIT as int),
    ensures
        p == transform_to_pose_spec(*t),
        pose_wf(p),
{
    proof {
        lemma_rot_bounds(*t);
    }
    let raw = atan2_fp(t.s, t.c);
    let theta = normalize_angle(raw);
    proof {
        lemma_norm_angle_range(atan2_spec(t.s as int, t.c as int));
    }
    Pose { x: t.tx, y: t.ty, theta }
}

/// The conversion pair keeps the translation exactly: converting a
/// transform to a pose and back, or a pose to a transform and back, returns
/// the original position components unchanged.
pub proof fn lemma_conversion_keeps_translation(t: RigidTransform2D, p: Pose)
    ensures
        pose_to_transform_spec(transform_to_pose_spec(t)).tx == t.tx,
        pose_to_transform_spec(transform_to_pose_spec(t)).ty == t.ty,
        transform_to_pose_spec(pose_to_transform_spec(p)).x == p.x,
        transform_to_pose_spec(pose_to_transform_spec(p)).y == p.y,
{
}

} // verus!
