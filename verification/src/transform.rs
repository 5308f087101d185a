//! Rigid 2D transforms in fixed point.
//!
//! A `RigidTransform2D` stands for the homogeneous matrix
//! `[[c/S, -s/S, tx/S], [s/S, c/S, ty/S], [0, 0, 1]]` with `S == SCALE`.
//! The rotation block is, by shape, never a reflection; well-formedness pins
//! its determinant `(c*c + s*s)/S^2` to a unit window, so the determinant is
//! as close to +1 as the representation can hold and always positive.

use vstd::prelude::*;
use vstd::arithmetic::div_mod::lemma_fundamental_div_mod;
use crate::numeric::{
    SCALE, COORD_LIMIT, TRANS_LIMIT, TRANS_HARD_LIMIT, COV_LIMIT, abs_i, sqrt_floor,
    lemma_sq_le, lemma_sqrt_floor_unique, lemma_abs_mul_bound, lemma_div_bound_nonneg,
    lemma_div_mag, lemma_div_exact_multiple, isqrt_u128, div_floor_i128,
};
use crate::geometry::Point2D;

verus! {

/// Largest translation magnitude `compose` can produce from in-range inputs (2^46).
pub const TRANS_COMPOSE_LIMIT: i64 = 70368744177664;

/// Lower edge of the scaling window for rotation normalization (2^61).
pub const WIN_LO: u128 = 2305843009213693952;

/// Upper edge of the scaling window for rotation normalization (2^62).
pub const WIN_HI: u128 = 4611686018427387904;

/// A rigid transform: rotation `(c, s)` and translation `(tx, ty)`, in ticks.
#[derive(Clone, Copy, Debug, PartialEq, Eq, Structural)]
pub struct RigidTransform2D {
    pub c: i64,
    pub s: i64,
    pub tx: i64,
    pub ty: i64,
}

/// The rotation block is a unit rotation up to fixed-point granularity:
/// its squared norm lies within `[S^2 - 4S, S^2 + 1]`.
pub open spec fn rot_wf(t: RigidTransform2D) -> bool {
    SCALE * SCALE - 4 * SCALE <= t.c * t.c + t.s * t.s <= SCALE * SCALE + 1
}

/// Both translation components have magnitude at most `b`.
pub open spec fn trans_bounded(t: RigidTransform2D, b: int) -> bool {
    &&& -b <= t.tx <= b
    &&& -b <= t.ty <= b
}

/// A transform the registration pipeline keeps working with.
pub open spec fn transform_wf(t: RigidTransform2D) -> bool {
    rot_wf(t) && trans_bounded(t, TRANS_LIMIT as int)
}

/// The identity transform.
pub open spec fn identity_spec() -> RigidTransform2D {
    RigidTransform2D { c: SCALE, s: 0, tx: 0, ty: 0 }
}

/// X coordinate, as an unbounded integer, of `t` applied to `p`.
pub open spec fn apply_x(t: RigidTransform2D, p: Point2D) -> int {
    (t.c * p.x - t.s * p.y) / (SCALE as int) + t.tx
}

/// Y coordinate, as an unbounded integer, of `t` applied to `p`.
pub open spec fn apply_y(t: RigidTransform2D, p: Point2D) -> int {
    (t.s * p.x + t.c * p.y) / (SCALE as int) + t.ty
}

/// Halve both magnitudes until each is below the scaling window's top.
pub open spec fn shrink_to_window(ua: nat, ub: nat) -> (nat, nat)
    decreases ua + ub,
{
    if ua >= WIN_HI || ub >= WIN_HI {
        shrink_to_window(ua / 2, ub / 2)
    } else {
        (ua, ub)
    }
}

/// Double both magnitudes until one reaches the scaling window.
pub open spec fn grow_to_window(ua: nat, ub: nat) -> (nat, nat)
    decreases 4 * WIN_LO - ua - ub,
{
    if ua < WIN_LO && ub < WIN_LO && (ua > 0 || ub > 0) {
        grow_to_window(2 * ua, 2 * ub)
    } else {
        (ua, ub)
    }
}

/// Magnitude pair of `(cx, sx)` scaled into the window.
pub open spec fn windowed_pair(cx: int, sx: int) -> (nat, nat) {
    let sh = shrink_to_window(abs_i(cx), abs_i(sx));
    grow_to_window(sh.0, sh.1)
}

/// The unit rotation, in ticks, pointing along the vector `(cx, sx)`:
/// the pair is scaled into a fixed window, divided by the floor square root
/// of its squared norm, and given back its signs.
pub open spec fn normalize_spec(cx: int, sx: int) -> (int, int)
    recommends
        !(cx == 0 && sx == 0),
{
    let w = windowed_pair(cx, sx);
    let n = sqrt_floor(w.0 * w.0 + w.1 * w.1);
    let cm = (w.0 * (SCALE as nat)) / n;
    let sm = (w.1 * (SCALE as nat)) / n;
    (
        if cx >= 0 {
            cm as int
        } else {
            -(cm as int)
        },
        if sx >= 0 {
            sm as int
        } else {
            -(sm as int)
        },
    )
}

/// Composition `a * b` (apply `b` first): the raw rotation product is
/// re-normalized, the translation is `a`'s rotation applied to `b`'s
/// translation plus `a`'s own.
pub open spec fn compose_spec(a: RigidTransform2D, b: RigidTransform2D) -> RigidTransform2D {
    let n = normalize_spec(a.c * b.c - a.s * b.s, a.s * b.c + a.c * b.s);
    RigidTransform2D {
        c: n.0 as i64,
        s: n.1 as i64,
        tx: ((a.c * b.tx - a.s * b.ty) / (SCALE as int) + a.tx) as i64,
        ty: ((a.s * b.tx + a.c * b.ty) / (SCALE as int) + a.ty) as i64,
    }
}

/// Inverse of a rigid transform: transposed rotation, rotated-and-negated
/// translation.
pub open spec fn invert_spec(t: RigidTransform2D) -> RigidTransform2D {
    RigidTransform2D {
        c: t.c,
        s: (-t.s) as i64,
        tx: (-((t.c * t.tx + t.s * t.ty) / (SCALE as int))) as i64,
        ty: ((t.s * t.tx - t.c * t.ty) / (SCALE as int)) as i64,
    }
}

/// A well-formed rotation block has components within `[-SCALE, SCALE]`.
pub proof fn lemma_rot_bounds(t: RigidTransform2D)
    requires
        rot_wf(t),
    ensures
        -SCALE <= t.c <= SCALE,
        -SCALE <= t.s <= SCALE,
{
    assert(-SCALE <= t.c <= SCALE && -SCALE <= t.s <= SCALE) by (nonlinear_arith)
        requires
            t.c * t.c + t.s * t.s <= SCALE * SCALE + 1,
            SCALE == 1073741824,
    ;
}

/// The squared norm of a raw rotation product is the product of the squared
/// norms of its factors.
pub proof fn lemma_rot_product_norm(c1: int, s1: int, c2: int, s2: int)
    ensures
        (c1 * c2 - s1 * s2) * (c1 * c2 - s1 * s2) + (s1 * c2 + c1 * s2) * (s1 * c2 + c1 * s2) == (
        c1 * c1 + s1 * s1) * (c2 * c2 + s2 * s2),
{
    let u = c1 * c2;
    let v = s1 * s2;
    let w = s1 * c2;
    let z = c1 * s2;
    assert(u * v == w * z) by (nonlinear_arith)
        requires
            u == c1 * c2,
            v == s1 * s2,
            w == s1 * c2,
            z == c1 * s2,
    ;
    assert((u - v) * (u - v) + (w + z) * (w + z) == u * u + v * v + w * w + z * z - 2 * (u * v) + 2
        * (w * z)) by (nonlinear_arith);
    let pa = c1 * c1;
    let pb = s1 * s1;
    let pc = c2 * c2;
    let pd = s2 * s2;
    assert(u * u == pa * pc) by (nonlinear_arith)
        requires
            u == c1 * c2,
            pa == c1 * c1,
            pc == c2 * c2,
    ;
    assert(v * v == pb * pd) by (nonlinear_arith)
        requires
            v == s1 * s2,
            pb == s1 * s1,
            pd == s2 * s2,
    ;
    assert(w * w == pb * pc) by (nonlinear_arith)
        requires
            w == s1 * c2,
            pb == s1 * s1,
            pc == c2 * c2,
    ;
    assert(z * z == pa * pd) by (nonlinear_arith)
        requires
            z == c1 * s2,
            pa == c1 * c1,
            pd == s2 * s2,
    ;
    assert((pa + pb) * (pc + pd) == pa * pc + pa * pd + pb * pc + pb * pd) by (nonlinear_arith);
}

/// A floor square root exists for every natural number.
proof fn lemma_sqrt_exists(x: nat)
    ensures
        exists|r: nat| #[trigger] (r * r) <= x && x < (r + 1) * (r + 1),
    decreases x,
{
    if x == 0 {
        assert((0 as nat) * (0 as nat) <= x && x < ((0 as nat) + 1) * ((0 as nat) + 1))
            by (nonlinear_arith)
            requires
                x == 0,
        ;
    } else {
        lemma_sqrt_exists((x - 1) as nat);
        let r = choose|r: nat| #[trigger] (r * r) <= (x - 1) as nat && ((x - 1) as nat) < (r + 1) * (
        r + 1);
        if x < (r + 1) * (r + 1) {
            assert(r * r <= x && x < (r + 1) * (r + 1));
        } else {
            assert(x == (r + 1) * (r + 1));
            assert(((r + 1) as nat) * ((r + 1) as nat) <= x && x < ((r + 1) + 1) * ((r + 1) + 1))
                by (nonlinear_arith)
                requires
                    x == (r + 1) * (r + 1),
            ;
        }
    }
}

/// The defining inequalities of `sqrt_floor`.
pub proof fn lemma_sqrt_floor_props(x: nat)
    ensures
        sqrt_floor(x) * sqrt_floor(x) <= x,
        x < (sqrt_floor(x) + 1) * (sqrt_floor(x) + 1),
{
    lemma_sqrt_exists(x);
    let w = choose|r: nat| #[trigger] (r * r) <= x && x < (r + 1) * (r + 1);
    lemma_sqrt_floor_unique(x, w);
}

/// Shape of the shrinking phase: outputs below the window top, zero and
/// positivity of the second component preserved, and either nothing moved or
/// the larger output reached the window.
proof fn lemma_shrink_props(ua: nat, ub: nat)
    ensures
        shrink_to_window(ua, ub).0 < WIN_HI,
        shrink_to_window(ua, ub).1 < WIN_HI,
        shrink_to_window(ua, ub) == (ua, ub) || shrink_to_window(ua, ub).0 >= WIN_LO
            || shrink_to_window(ua, ub).1 >= WIN_LO,
        ub == 0 ==> shrink_to_window(ua, ub).1 == 0,
        ub == 0 && ua > 0 ==> shrink_to_window(ua, ub).0 > 0,
        !(ua == 0 && ub == 0) ==> !(shrink_to_window(ua, ub).0 == 0 && shrink_to_window(
            ua,
            ub,
        ).1 == 0),
    decreases ua + ub,
{
    if ua >= WIN_HI || ub >= WIN_HI {
        lemma_shrink_props(ua / 2, ub / 2);
        assert(ua / 2 >= WIN_LO || ub / 2 >= WIN_LO);
    }
}

/// Shape of the growing phase: outputs stay below the window top, the larger
/// one reaches the window, zeros are preserved.
proof fn lemma_grow_props(ua: nat, ub: nat)
    requires
        ua < WIN_HI,
        ub < WIN_HI,
        !(ua == 0 && ub == 0),
    ensures
        grow_to_window(ua, ub).0 < WIN_HI,
        grow_to_window(ua, ub).1 < WIN_HI,
        grow_to_window(ua, ub).0 >= WIN_LO || grow_to_window(ua, ub).1 >= WIN_LO,
        ub == 0 ==> grow_to_window(ua, ub).1 == 0,
        ub == 0 && ua > 0 ==> grow_to_window(ua, ub).0 > 0,
        !(grow_to_window(ua, ub).0 == 0 && grow_to_window(ua, ub).1 == 0),
    decreases 4 * WIN_LO - ua - ub,
{
    if ua < WIN_LO && ub < WIN_LO && (ua > 0 || ub > 0) {
        lemma_grow_props(2 * ua, 2 * ub);
    }
}

/// The windowed pair of a nonzero vector: both components below the window
/// top, the larger at or above the window bottom, zeros of the input kept.
pub proof fn lemma_windowed_pair_props(cx: int, sx: int)
    requires
        !(cx == 0 && sx == 0),
    ensures
        windowed_pair(cx, sx).0 < WIN_HI,
        windowed_pair(cx, sx).1 < WIN_HI,
        windowed_pair(cx, sx).0 >= WIN_LO || windowed_pair(cx, sx).1 >= WIN_LO,
        !(windowed_pair(cx, sx).0 == 0 && windowed_pair(cx, sx).1 == 0),
        sx == 0 ==> windowed_pair(cx, sx).1 == 0,
        sx == 0 && cx != 0 ==> windowed_pair(cx, sx).0 > 0,
{
    let ua = abs_i(cx);
    let ub = abs_i(sx);
    lemma_shrink_props(ua, ub);
    let sh = shrink_to_window(ua, ub);
    if sh.0 >= WIN_LO || sh.1 >= WIN_LO {
        assert(grow_to_window(sh.0, sh.1) == sh);
    }
    lemma_grow_props(sh.0, sh.1);
}

/// Unit-window bounds for a windowed pair divided by the floor square root
/// of its squared norm.
pub proof fn lemma_unit_from_window(wa: nat, wb: nat)
    requires
        wa < WIN_HI,
        wb < WIN_HI,
        wa >= WIN_LO || wb >= WIN_LO,
    ensures
        ({
            let n = sqrt_floor(wa * wa + wb * wb);
            let cm = (wa * (SCALE as nat)) / n;
            let sm = (wb * (SCALE as nat)) / n;
            &&& WIN_LO <= n
            &&& n < 2 * WIN_HI
            &&& wa <= n
            &&& wb <= n
            &&& cm <= SCALE
            &&& sm <= SCALE
            &&& SCALE * SCALE - 4 * SCALE <= cm * cm + sm * sm <= SCALE * SCALE + 1
        }),
{
    let m = wa * wa + wb * wb;
    let n = sqrt_floor(m);
    lemma_sqrt_floor_props(m);
    let s = SCALE as nat;

    assert(m >= WIN_LO * WIN_LO) by (nonlinear_arith)
        requires
            wa >= WIN_LO || wb >= WIN_LO,
            m == wa * wa + wb * wb,
    ;
    assert(m < 2 * WIN_HI * WIN_HI) by (nonlinear_arith)
        requires
            wa < WIN_HI,
            wb < WIN_HI,
            m == wa * wa + wb * wb,
    ;
    // n is in the window too.
    assert(WIN_LO <= n) by {
        if n < WIN_LO {
            lemma_sq_le(n + 1, WIN_LO as nat);
            assert(false);
        }
    }
    assert(n < 2 * WIN_HI) by {
        if n >= 2 * WIN_HI {
            lemma_sq_le((2 * WIN_HI) as nat, n);
            assert(2 * WIN_HI * (2 * WIN_HI) >= 2 * WIN_HI * WIN_HI + 1) by (nonlinear_arith)
                requires
                    WIN_HI == 4611686018427387904,
            ;
            assert(false);
        }
    }
    // Each component is at most n.
    assert(wa <= n && wb <= n) by {
        if wa > n {
            lemma_sq_le(n + 1, wa);
            assert(wa * wa <= m) by (nonlinear_arith)
                requires
                    m == wa * wa + wb * wb,
            ;
            assert(false);
        }
        if wb > n {
            lemma_sq_le(n + 1, wb);
            assert(wb * wb <= m) by (nonlinear_arith)
                requires
                    m == wa * wa + wb * wb,
            ;
            assert(false);
        }
    }
    let cm = (wa * s) / n;
    let sm = (wb * s) / n;
    // cm <= S and sm <= S.
    assert(wa * s <= n * s && wb * s <= n * s) by (nonlinear_arith)
        requires
            wa <= n,
            wb <= n,
            s >= 0,
    ;
    lemma_div_bound_nonneg((wa * s) as int, (n * s) as int, n as int);
    lemma_div_bound_nonneg((wb * s) as int, (n * s) as int, n as int);
    lemma_div_exact_multiple(s as int, n as int);
    assert((n * s) as int == (n as int) * (s as int)) by (nonlinear_arith);
    assert(cm <= s);
    assert(sm <= s);

    // Division facts: n * cm <= wa * s < n * (cm + 1).
    lemma_fundamental_div_mod((wa * s) as int, n as int);
    lemma_fundamental_div_mod((wb * s) as int, n as int);
    let ra = (wa * s) as int % (n as int);
    let rb = (wb * s) as int % (n as int);
    assert((wa * s) as int == (n as int) * (cm as int) + ra);
    assert((wb * s) as int == (n as int) * (sm as int) + rb);
    assert(0 <= ra < n as int && 0 <= rb < n as int);

    // Upper window bound.
    assert(cm * cm + sm * sm <= SCALE * SCALE + 1) by (nonlinear_arith)
        requires
            (wa * s) as int == (n as int) * (cm as int) + ra,
            (wb * s) as int == (n as int) * (sm as int) + rb,
            0 <= ra < n as int,
            0 <= rb < n as int,
            m == wa * wa + wb * wb,
            m < (n + 1) * (n + 1),
            n >= WIN_LO,
            s == SCALE,
            SCALE == 1073741824,
            WIN_LO == 2305843009213693952,
            cm <= s,
            sm <= s,
    ;
    // Lower window bound.
    assert(cm * cm + sm * sm >= SCALE * SCALE - 4 * SCALE) by (nonlinear_arith)
        requires
            (wa * s) as int == (n as int) * (cm as int) + ra,
            (wb * s) as int == (n as int) * (sm as int) + rb,
            0 <= ra < n as int,
            0 <= rb < n as int,
            m == wa * wa + wb * wb,
            n * n <= m,
            n >= WIN_LO,
            wa <= n,
            wb <= n,
            s == SCALE,
            SCALE == 1073741824,
            WIN_LO == 2305843009213693952,
            cm <= s,
            sm <= s,
    ;
}

/// The normalized rotation of a nonzero vector lies in the unit window and
/// keeps the signs of its input.
pub proof fn lemma_normalize_spec_props(cx: int, sx: int)
    requires
        !(cx == 0 && sx == 0),
    ensures
        ({
            let r = normalize_spec(cx, sx);
            &&& SCALE * SCALE - 4 * SCALE <= r.0 * r.0 + r.1 * r.1 <= SCALE * SCALE + 1
            &&& -SCALE <= r.0 <= SCALE
            &&& -SCALE <= r.1 <= SCALE
            &&& cx >= 0 ==> r.0 >= 0
            &&& cx < 0 ==> r.0 <= 0
            &&& sx >= 0 ==> r.1 >= 0
            &&& sx < 0 ==> r.1 <= 0
        }),
{
    lemma_windowed_pair_props(cx, sx);
    let w = windowed_pair(cx, sx);
    lemma_unit_from_window(w.0, w.1);
    let n = sqrt_floor(w.0 * w.0 + w.1 * w.1);
    let cm = (w.0 * (SCALE as nat)) / n;
    let sm = (w.1 * (SCALE as nat)) / n;
    let r = normalize_spec(cx, sx);
    assert(r.0 == cm as int || r.0 == -(cm as int));
    assert(r.1 == sm as int || r.1 == -(sm as int));
    assert(r.0 * r.0 == (cm as int) * (cm as int) && r.1 * r.1 == (sm as int) * (sm as int))
        by (nonlinear_arith)
        requires
            r.0 == cm as int || r.0 == -(cm as int),
            r.1 == sm as int || r.1 == -(sm as int),
    ;
}

/// Normalizing a vector along the positive x axis gives the exact identity
/// rotation.
pub proof fn lemma_normalize_spec_axis(cx: int)
    requires
        cx > 0,
    ensures
        normalize_spec(cx, 0) == (SCALE as int, 0int),
{
    lemma_windowed_pair_props(cx, 0);
    let w = windowed_pair(cx, 0);
    assert(w.1 == 0 && w.0 > 0);
    let m = w.0 * w.0 + w.1 * w.1;
    assert(m == w.0 * w.0) by (nonlinear_arith)
        requires
            w.1 == 0,
            m == w.0 * w.0 + w.1 * w.1,
    ;
    assert(m < (w.0 + 1) * (w.0 + 1)) by (nonlinear_arith)
        requires
            m == w.0 * w.0,
    ;
    lemma_sqrt_floor_unique(m, w.0);
    let n = sqrt_floor(m);
    assert(n == w.0);
    assert((w.0 * (SCALE as nat)) / n == SCALE) by {
        assert(w.0 * (SCALE as nat) == (n as int) * (SCALE as int)) by (nonlinear_arith)
            requires
                n == w.0,
        ;
        lemma_div_exact_multiple(SCALE as int, n as int);
    }
    assert((w.1 * (SCALE as nat)) / n == 0) by {
        assert(w.1 * (SCALE as nat) == 0) by (nonlinear_arith)
            requires
                w.1 == 0,
        ;
        lemma_div_bound_nonneg(0, 0, n as int);
    }
}

/// The shrinking phase divides both magnitudes by a common factor.
pub open spec fn shrunk_by(ua: nat, ub: nat, d: nat) -> bool {
    d >= 1 && shrink_to_window(ua, ub) == (ua / d, ub / d)
}

/// The growing phase multiplies both magnitudes by a common factor.
pub open spec fn grown_by(ua: nat, ub: nat, d: nat) -> bool {
    d >= 1 && grow_to_window(ua, ub) == (ua * d, ub * d)
}

proof fn lemma_shrink_scaling(ua: nat, ub: nat)
    ensures
        exists|d: nat| #[trigger] shrunk_by(ua, ub, d),
    decreases ua + ub,
{
    if ua >= WIN_HI || ub >= WIN_HI {
        lemma_shrink_scaling(ua / 2, ub / 2);
        let d0 = choose|d: nat| #[trigger] shrunk_by(ua / 2, ub / 2, d);
        vstd::arithmetic::div_mod::lemma_div_denominator(ua as int, 2, d0 as int);
        vstd::arithmetic::div_mod::lemma_div_denominator(ub as int, 2, d0 as int);
        assert(shrunk_by(ua, ub, 2 * d0));
    } else {
        assert(ua as int / 1 == ua && ub as int / 1 == ub) by (nonlinear_arith);
        assert(shrunk_by(ua, ub, 1));
    }
}

proof fn lemma_grow_scaling(ua: nat, ub: nat)
    requires
        ua < WIN_HI,
        ub < WIN_HI,
        !(ua == 0 && ub == 0),
    ensures
        exists|d: nat| #[trigger] grown_by(ua, ub, d),
    decreases 4 * WIN_LO - ua - ub,
{
    if ua < WIN_LO && ub < WIN_LO && (ua > 0 || ub > 0) {
        lemma_grow_scaling(2 * ua, 2 * ub);
        let d0 = choose|d: nat| #[trigger] grown_by(2 * ua, 2 * ub, d);
        assert((2 * ua) * d0 == ua * (2 * d0) && (2 * ub) * d0 == ub * (2 * d0))
            by (nonlinear_arith);
        assert(grown_by(ua, ub, 2 * d0));
    } else {
        assert(ua * 1 == ua && ub * 1 == ub) by (nonlinear_arith);
        assert(grown_by(ua, ub, 1));
    }
}

/// The core direction bound at the window: dividing the windowed pair by
/// the floor square root of its squared norm turns it by almost nothing —
/// the cross product of `(cm, sm)` with `(wa, wb)` is below `wa + wb`.
proof fn lemma_window_cross(wa: nat, wb: nat)
    requires
        wa < WIN_HI,
        wb < WIN_HI,
        wa >= WIN_LO || wb >= WIN_LO,
    ensures
        ({
            let n = sqrt_floor(wa * wa + wb * wb);
            let cm = (wa * (SCALE as nat)) / n;
            let sm = (wb * (SCALE as nat)) / n;
            -(wa + wb) <= cm * wb - sm * wa <= (wa + wb)
        }),
{
    lemma_unit_from_window(wa, wb);
    let n = sqrt_floor(wa * wa + wb * wb);
    let s = SCALE as nat;
    let cm = (wa * s) / n;
    let sm = (wb * s) / n;
    lemma_fundamental_div_mod((wa * s) as int, n as int);
    lemma_fundamental_div_mod((wb * s) as int, n as int);
    let ra = (wa * s) as int % (n as int);
    let rb = (wb * s) as int % (n as int);
    assert((n as int) * (cm as int) * wb - (n as int) * (sm as int) * wa == rb * wa - ra * wb)
        by (nonlinear_arith)
        requires
            (wa * s) as int == (n as int) * (cm as int) + ra,
            (wb * s) as int == (n as int) * (sm as int) + rb,
    ;
    assert(-((n as int) * ((wa + wb) as int)) <= rb * wa - ra * wb <= (n as int) * ((wa
        + wb) as int)) by (nonlinear_arith)
        requires
            0 <= ra < n as int,
            0 <= rb < n as int,
            wa >= 0,
            wb >= 0,
    ;
    assert(-((wa + wb) as int) <= (cm as int) * wb - (sm as int) * wa <= (wa + wb) as int)
        by (nonlinear_arith)
        requires
            (n as int) * (cm as int) * wb - (n as int) * (sm as int) * wa == rb * wa - ra * wb,
            -((n as int) * ((wa + wb) as int)) <= rb * wa - ra * wb <= (n as int) * ((wa
                + wb) as int),
            n >= 1,
    ;
}

/// The normalized rotation points along its input vector: the cross
/// product of `normalize_spec(cx, sx)` with `(cx, sx)` has magnitude at
/// most `2 * (|cx| + |sx|)`, while an arbitrary unit rotation could reach
/// about `SCALE` times that — the direction error is about `2^-29` radian.
pub proof fn lemma_normalize_spec_direction(cx: int, sx: int)
    requires
        !(cx == 0 && sx == 0),
    ensures
        ({
            let r = normalize_spec(cx, sx);
            -2 * (abs_i(cx) + abs_i(sx)) <= r.0 * sx - r.1 * cx <= 2 * (abs_i(cx) + abs_i(sx))
        }),
{
    let ua0 = abs_i(cx);
    let ub0 = abs_i(sx);
    lemma_shrink_scaling(ua0, ub0);
    let dn = choose|d: nat| #[trigger] shrunk_by(ua0, ub0, d);
    let sh = shrink_to_window(ua0, ub0);
    lemma_shrink_props(ua0, ub0);
    lemma_grow_scaling(sh.0, sh.1);
    let du = choose|d: nat| #[trigger] grown_by(sh.0, sh.1, d);
    lemma_windowed_pair_props(cx, sx);
    let w = windowed_pair(cx, sx);
    lemma_window_cross(w.0, w.1);
    let n = sqrt_floor(w.0 * w.0 + w.1 * w.1);
    let s = SCALE as nat;
    let cm = (w.0 * s) / n;
    let sm = (w.1 * s) / n;
    lemma_unit_from_window(w.0, w.1);

    // The two phases never both rescale: a shrunk pair is already at the
    // window, so the growing factor is then one.
    let cross = (cm as int) * ub0 - (sm as int) * ua0;
    if sh == (ua0, ub0) {
        // Only the growing phase rescaled: w == (ua0 * du, ub0 * du).
        assert((du as int) * cross == (cm as int) * (w.1 as int) - (sm as int) * (w.0 as int))
            by (nonlinear_arith)
            requires
                w.0 == ua0 * du,
                w.1 == ub0 * du,
                cross == (cm as int) * ub0 - (sm as int) * ua0,
        ;
        assert(-((ua0 + ub0) as int) <= cross <= (ua0 + ub0) as int) by (nonlinear_arith)
            requires
                (du as int) * cross == (cm as int) * (w.1 as int) - (sm as int) * (w.0 as int),
                -((w.0 + w.1) as int) <= (cm as int) * (w.1 as int) - (sm as int) * (w.0 as int)
                    <= (w.0 + w.1) as int,
                w.0 == ua0 * du,
                w.1 == ub0 * du,
                du >= 1,
        ;
    } else {
        // Only the shrinking phase rescaled: the shrunk pair reached the
        // window, so growing changed nothing.
        assert(sh.0 >= WIN_LO || sh.1 >= WIN_LO);
        assert(grow_to_window(sh.0, sh.1) == sh);
        assert(w == sh);
        assert(w.0 == ua0 / dn && w.1 == ub0 / dn);
        lemma_fundamental_div_mod(ua0 as int, dn as int);
        lemma_fundamental_div_mod(ub0 as int, dn as int);
        let ea = ua0 as int % (dn as int);
        let eb = ub0 as int % (dn as int);
        assert(cross == (dn as int) * ((cm as int) * (w.1 as int) - (sm as int) * (w.0 as int)) + (
        (cm as int) * eb - (sm as int) * ea)) by (nonlinear_arith)
            requires
                ua0 as int == (dn as int) * (w.0 as int) + ea,
                ub0 as int == (dn as int) * (w.1 as int) + eb,
                cross == (cm as int) * ub0 - (sm as int) * ua0,
        ;
        assert(-((dn * s) as int) <= (cm as int) * eb - (sm as int) * ea <= (dn * s) as int)
            by (nonlinear_arith)
            requires
                0 <= ea < dn as int,
                0 <= eb < dn as int,
                0 <= cm <= s,
                0 <= sm <= s,
        ;
        // dn * (w.0 + w.1) <= ua0 + ub0, and dn * SCALE <= dn * max(w)
        // <= max(ua0, ub0): both error terms stay within the input scale.
        assert((dn as int) * ((w.0 + w.1) as int) <= (ua0 + ub0) as int) by (nonlinear_arith)
            requires
                ua0 as int == (dn as int) * (w.0 as int) + ea,
                ub0 as int == (dn as int) * (w.1 as int) + eb,
                ea >= 0,
                eb >= 0,
        ;
        assert((dn * s) as int <= (ua0 + ub0) as int) by (nonlinear_arith)
            requires
                s <= WIN_LO,
                w.0 >= WIN_LO || w.1 >= WIN_LO,
                ua0 as int == (dn as int) * (w.0 as int) + ea,
                ub0 as int == (dn as int) * (w.1 as int) + eb,
                ea >= 0,
                eb >= 0,
                dn >= 1,
                SCALE == 1073741824,
                WIN_LO == 2305843009213693952,
        ;
        assert(-2 * ((ua0 + ub0) as int) <= cross <= 2 * ((ua0 + ub0) as int)) by (nonlinear_arith)
            requires
                cross == (dn as int) * ((cm as int) * (w.1 as int) - (sm as int) * (w.0 as int)) + (
                (cm as int) * eb - (sm as int) * ea),
                -((w.0 + w.1) as int) <= (cm as int) * (w.1 as int) - (sm as int) * (w.0 as int)
                    <= (w.0 + w.1) as int,
                -((dn * s) as int) <= (cm as int) * eb - (sm as int) * ea <= (dn * s) as int,
                (dn as int) * ((w.0 + w.1) as int) <= (ua0 + ub0) as int,
                (dn * s) as int <= (ua0 + ub0) as int,
                dn >= 1,
        ;
    }
    // Undo the sign decomposition: the cross product over the original
    // signed inputs has the same magnitude.
    let r = normalize_spec(cx, sx);
    if cx >= 0 {
        if sx >= 0 {
            assert(r.0 * sx - r.1 * cx == cross) by (nonlinear_arith)
                requires
                    r.0 == cm as int,
                    r.1 == sm as int,
                    ua0 == cx,
                    ub0 == sx,
                    cross == (cm as int) * ub0 - (sm as int) * ua0,
            ;
        } else {
            assert(r.0 * sx - r.1 * cx == -cross) by (nonlinear_arith)
                requires
                    r.0 == cm as int,
                    r.1 == -(sm as int),
                    ua0 == cx,
                    ub0 == -sx,
                    cross == (cm as int) * ub0 - (sm as int) * ua0,
            ;
        }
    } else {
        if sx >= 0 {
            assert(r.0 * sx - r.1 * cx == -cross) by (nonlinear_arith)
                requires
                    r.0 == -(cm as int),
                    r.1 == sm as int,
                    ua0 == -cx,
                    ub0 == sx,
                    cross == (cm as int) * ub0 - (sm as int) * ua0,
            ;
        } else {
            assert(r.0 * sx - r.1 * cx == cross) by (nonlinear_arith)
                requires
                    r.0 == -(cm as int),
                    r.1 == -(sm as int),
                    ua0 == -cx,
                    ub0 == -sx,
                    cross == (cm as int) * ub0 - (sm as int) * ua0,
            ;
        }
    }
}

/// Computes `normalize_spec` exactly.
pub fn normalize_rotation(cx: i128, sx: i128) -> (r: (i64, i64))
    requires
        !(cx == 0 && sx == 0),
        -COV_LIMIT <= cx <= COV_LIMIT,
        -COV_LIMIT <= sx <= COV_LIMIT,
    ensures
        r.0 as int == normalize_spec(cx as int, sx as int).0,
        r.1 as int == normalize_spec(cx as int, sx as int).1,
        SCALE * SCALE - 4 * SCALE <= r.0 * r.0 + r.1 * r.1 <= SCALE * SCALE + 1,
        -SCALE <= r.0 <= SCALE,
        -SCALE <= r.1 <= SCALE,
{
    let mut ua: u128 = if cx >= 0 {
        cx as u128
    } else {
        (-cx) as u128
    };
    let mut ub: u128 = if sx >= 0 {
        sx as u128
    } else {
        (-sx) as u128
    };
    proof {
        assert(ua as nat == abs_i(cx as int));
        assert(ub as nat == abs_i(sx as int));
    }
    let ghost ua0: nat = ua as nat;
    let ghost ub0: nat = ub as nat;
    while ua >= WIN_HI || ub >= WIN_HI
        invariant
            shrink_to_window(ua0, ub0) == shrink_to_window(ua as nat, ub as nat),
        decreases ua + ub,
    {
        ua = ua / 2;
        ub = ub / 2;
    }
    proof {
        assert(shrink_to_window(ua as nat, ub as nat) == (ua as nat, ub as nat));
        lemma_shrink_props(ua0, ub0);
        assert(!(ua == 0 && ub == 0));
    }
    let ghost ua1: nat = ua as nat;
    let ghost ub1: nat = ub as nat;
    while ua < WIN_LO && ub < WIN_LO
        invariant
            grow_to_window(ua1, ub1) == grow_to_window(ua as nat, ub as nat),
            ua < WIN_HI,
            ub < WIN_HI,
            !(ua == 0 && ub == 0),
        decreases 4 * WIN_LO - ua - ub,
    {
        ua = ua * 2;
        ub = ub * 2;
    }
    proof {
        assert(grow_to_window(ua as nat, ub as nat) == (ua as nat, ub as nat));
        assert(windowed_pair(cx as int, sx as int) == (ua as nat, ub as nat));
        lemma_windowed_pair_props(cx as int, sx as int);
        lemma_unit_from_window(ua as nat, ub as nat);
        assert((ua as nat) * (ua as nat) + (ub as nat) * (ub as nat) < WIN_HI * WIN_HI + WIN_HI
            * WIN_HI) by (nonlinear_arith)
            requires
                (ua as nat) < WIN_HI,
                (ub as nat) < WIN_HI,
        ;
    }
    let m: u128 = ua * ua + ub * ub;
    let n: u64 = isqrt_u128(m);
    proof {
        assert(n as nat == sqrt_floor(m as nat));
        assert(n >= WIN_LO && ua <= n as u128 && ub <= n as u128);
        assert((ua as nat) * (SCALE as nat) <= (WIN_HI as nat) * (SCALE as nat))
            by (nonlinear_arith)
            requires
                ua as nat <= WIN_HI as nat,
        ;
        assert((ub as nat) * (SCALE as nat) <= (WIN_HI as nat) * (SCALE as nat))
            by (nonlinear_arith)
            requires
                ub as nat <= WIN_HI as nat,
        ;
    }
    let cm: u128 = (ua * (SCALE as u128)) / (n as u128);
    let sm: u128 = (ub * (SCALE as u128)) / (n as u128);
    proof {
        assert(cm as nat == ((ua as nat) * (SCALE as nat)) / (n as nat));
        assert(sm as nat == ((ub as nat) * (SCALE as nat)) / (n as nat));
        assert(cm <= SCALE as u128 && sm <= SCALE as u128);
        lemma_normalize_spec_props(cx as int, sx as int);
    }
    let c: i64 = if cx >= 0 {
        cm as i64
    } else {
        -(cm as i64)
    };
    let s: i64 = if sx >= 0 {
        sm as i64
    } else {
        -(sm as i64)
    };
    (c, s)
}

impl RigidTransform2D {
    /// The identity transform.
    pub fn identity() -> (r: RigidTransform2D)
        ensures
            r == identity_spec(),
            transform_wf(r),
    {
        proof {
            assert(SCALE * SCALE - 4 * SCALE <= SCALE * SCALE + 0 * 0 <= SCALE * SCALE + 1)
                by (nonlinear_arith)
                requires
                    SCALE == 1073741824,
            ;
        }
        RigidTransform2D { c: SCALE, s: 0, tx: 0, ty: 0 }
    }
}

/// Composition `a * b`: the transform applying `b` first, then `a`.
pub fn compose(a: &RigidTransform2D, b: &RigidTransform2D) -> (r: RigidTransform2D)
    requires
        rot_wf(*a),
        rot_wf(*b),
        trans_bounded(*a, TRANS_HARD_LIMIT as int),
        trans_bounded(*b, TRANS_LIMIT as int),
    ensures
        r == compose_spec(*a, *b),
        rot_wf(r),
        trans_bounded(r, TRANS_COMPOSE_LIMIT as int),
{
    proof {
        lemma_rot_bounds(*a);
        lemma_rot_bounds(*b);
        lemma_abs_mul_bound(a.c as int, b.c as int, SCALE as int, SCALE as int);
        lemma_abs_mul_bound(a.s as int, b.s as int, SCALE as int, SCALE as int);
        lemma_abs_mul_bound(a.s as int, b.c as int, SCALE as int, SCALE as int);
        lemma_abs_mul_bound(a.c as int, b.s as int, SCALE as int, SCALE as int);
    }
    let rc: i128 = a.c as i128 * b.c as i128 - a.s as i128 * b.s as i128;
    let rs: i128 = a.s as i128 * b.c as i128 + a.c as i128 * b.s as i128;
    proof {
        lemma_rot_product_norm(a.c as int, a.s as int, b.c as int, b.s as int);
        assert(!(rc == 0 && rs == 0)) by {
            if rc == 0 && rs == 0 {
                assert((a.c * a.c + a.s * a.s) * (b.c * b.c + b.s * b.s) > 0) by (nonlinear_arith)
                    requires
                        a.c * a.c + a.s * a.s >= SCALE * SCALE - 4 * SCALE,
                        b.c * b.c + b.s * b.s >= SCALE * SCALE - 4 * SCALE,
                        SCALE == 1073741824,
                ;
                assert(rc * rc + rs * rs == 0) by (nonlinear_arith)
                    requires
                        rc == 0,
                        rs == 0,
                ;
            }
        }
    }
    let rot = normalize_rotation(rc, rs);
    proof {
        lemma_abs_mul_bound(a.c as int, b.tx as int, SCALE as int, TRANS_LIMIT as int);
        lemma_abs_mul_bound(a.s as int, b.ty as int, SCALE as int, TRANS_LIMIT as int);
        lemma_abs_mul_bound(a.s as int, b.tx as int, SCALE as int, TRANS_LIMIT as int);
        lemma_abs_mul_bound(a.c as int, b.ty as int, SCALE as int, TRANS_LIMIT as int);
    }
    let txn: i128 = a.c as i128 * b.tx as i128 - a.s as i128 * b.ty as i128;
    let tyn: i128 = a.s as i128 * b.tx as i128 + a.c as i128 * b.ty as i128;
    let qx: i128 = div_floor_i128(txn, SCALE as i128);
    let qy: i128 = div_floor_i128(tyn, SCALE as i128);
    proof {
        lemma_div_mag(txn as int, 2 * (SCALE as int) * (TRANS_LIMIT as int), SCALE as int);
        lemma_div_mag(tyn as int, 2 * (SCALE as int) * (TRANS_LIMIT as int), SCALE as int);
        assert((2 * (SCALE as int) * (TRANS_LIMIT as int)) / (SCALE as int) == 2 * (
        TRANS_LIMIT as int)) by {
            assert(2 * (SCALE as int) * (TRANS_LIMIT as int) == (SCALE as int) * (2 * (
            TRANS_LIMIT as int))) by (nonlinear_arith);
            lemma_div_exact_multiple(2 * (TRANS_LIMIT as int), SCALE as int);
        }
    }
    let tx: i64 = (qx + a.tx as i128) as i64;
    let ty: i64 = (qy + a.ty as i128) as i64;
    RigidTransform2D { c: rot.0, s: rot.1, tx, ty }
}

/// Inverse of a rigid transform.
pub fn invert(t: &RigidTransform2D) -> (r: RigidTransform2D)
    requires
        rot_wf(*t),
        trans_bounded(*t, TRANS_LIMIT as int),
    ensures
        r == invert_spec(*t),
        rot_wf(r),
        trans_bounded(r, TRANS_HARD_LIMIT as int),
{
    proof {
        lemma_rot_bounds(*t);
        lemma_abs_mul_bound(t.c as int, t.tx as int, SCALE as int, TRANS_LIMIT as int);
        lemma_abs_mul_bound(t.s as int, t.ty as int, SCALE as int, TRANS_LIMIT as int);
        lemma_abs_mul_bound(t.s as int, t.tx as int, SCALE as int, TRANS_LIMIT as int);
        lemma_abs_mul_bound(t.c as int, t.ty as int, SCALE as int, TRANS_LIMIT as int);
    }
    let xn: i128 = t.c as i128 * t.tx as i128 + t.s as i128 * t.ty as i128;
    let yn: i128 = t.s as i128 * t.tx as i128 - t.c as i128 * t.ty as i128;
    let qx: i128 = div_floor_i128(xn, SCALE as i128);
    let qy: i128 = div_floor_i128(yn, SCALE as i128);
    proof {
        lemma_div_mag(xn as int, 2 * (SCALE as int) * (TRANS_LIMIT as int), SCALE as int);
        lemma_div_mag(yn as int, 2 * (SCALE as int) * (TRANS_LIMIT as int), SCALE as int);
        assert((2 * (SCALE as int) * (TRANS_LIMIT as int)) / (SCALE as int) == 2 * (
        TRANS_LIMIT as int)) by {
            assert(2 * (SCALE as int) * (TRANS_LIMIT as int) == (SCALE as int) * (2 * (
            TRANS_LIMIT as int))) by (nonlinear_arith);
            lemma_div_exact_multiple(2 * (TRANS_LIMIT as int), SCALE as int);
        }
        assert(t.c * t.c + (-t.s) * (-t.s) == t.c * t.c + t.s * t.s) by (nonlinear_arith);
    }
    RigidTransform2D { c: t.c, s: -t.s, tx: (-qx) as i64, ty: qy as i64 }
}

/// A point carried through a transform of bounded translation stays within
/// a fixed working range (2^47).
pub proof fn lemma_apply_bounded(t: RigidTransform2D, p: Point2D)
    requires
        rot_wf(t),
        trans_bounded(t, TRANS_LIMIT as int),
        crate::geometry::point_in_bounds(p),
    ensures
        -0x800000000000 <= apply_x(t, p) <= 0x800000000000,
        -0x800000000000 <= apply_y(t, p) <= 0x800000000000,
{
    lemma_rot_bounds(t);
    lemma_abs_mul_bound(t.c as int, p.x as int, SCALE as int, COORD_LIMIT as int);
    lemma_abs_mul_bound(t.s as int, p.y as int, SCALE as int, COORD_LIMIT as int);
    lemma_abs_mul_bound(t.s as int, p.x as int, SCALE as int, COORD_LIMIT as int);
    lemma_abs_mul_bound(t.c as int, p.y as int, SCALE as int, COORD_LIMIT as int);
    lemma_div_mag(t.c * p.x - t.s * p.y, 2 * (SCALE as int) * (COORD_LIMIT as int), SCALE as int);
    lemma_div_mag(t.s * p.x + t.c * p.y, 2 * (SCALE as int) * (COORD_LIMIT as int), SCALE as int);
    assert((2 * (SCALE as int) * (COORD_LIMIT as int)) / (SCALE as int) == 2 * (COORD_LIMIT as int))
        by {
        assert(2 * (SCALE as int) * (COORD_LIMIT as int) == (SCALE as int) * (2 * (
        COORD_LIMIT as int))) by (nonlinear_arith);
        lemma_div_exact_multiple(2 * (COORD_LIMIT as int), SCALE as int);
    }
}

/// Applies `t` to `p` exactly, in floor fixed-point arithmetic.
pub fn transform_point(t: &RigidTransform2D, p: &Point2D) -> (r: Point2D)
    requires
        rot_wf(*t),
        trans_bounded(*t, TRANS_HARD_LIMIT as int),
        crate::geometry::point_in_bounds(*p),
    ensures
        r.x as int == apply_x(*t, *p),
        r.y as int == apply_y(*t, *p),
{
    proof {
        lemma_rot_bounds(*t);
        lemma_abs_mul_bound(t.c as int, p.x as int, SCALE as int, COORD_LIMIT as int);
        lemma_abs_mul_bound(t.s as int, p.y as int, SCALE as int, COORD_LIMIT as int);
        lemma_abs_mul_bound(t.s as int, p.x as int, SCALE as int, COORD_LIMIT as int);
        lemma_abs_mul_bound(t.c as int, p.y as int, SCALE as int, COORD_LIMIT as int);
    }
    let xn: i128 = t.c as i128 * p.x as i128 - t.s as i128 * p.y as i128;
    let yn: i128 = t.s as i128 * p.x as i128 + t.c as i128 * p.y as i128;
    let qx: i128 = div_floor_i128(xn, SCALE as i128);
    let qy: i128 = div_floor_i128(yn, SCALE as i128);
    proof {
        lemma_div_mag(xn as int, 2 * (SCALE as int) * (COORD_LIMIT as int), SCALE as int);
        lemma_div_mag(yn as int, 2 * (SCALE as int) * (COORD_LIMIT as int), SCALE as int);
        assert((2 * (SCALE as int) * (COORD_LIMIT as int)) / (SCALE as int) == 2 * (
        COORD_LIMIT as int)) by {
            assert(2 * (SCALE as int) * (COORD_LIMIT as int) == (SCALE as int) * (2 * (
            COORD_LIMIT as int))) by (nonlinear_arith);
            lemma_div_exact_multiple(2 * (COORD_LIMIT as int), SCALE as int);
        }
    }
    Point2D { x: (qx + t.tx as i128) as i64, y: (qy + t.ty as i128) as i64 }
}

/// Applies `tmat` to every point of `cloud_ref`, in order.
pub fn transformed_cloud(cloud_ref: &Vec<Point2D>, tmat: &RigidTransform2D) -> (r: Vec<Point2D>)
    requires
        crate::geometry::cloud_in_bounds(cloud_ref@),
        rot_wf(*tmat),
        trans_bounded(*tmat, TRANS_HARD_LIMIT as int),
    ensures
        r@.len() == cloud_ref@.len(),
        forall|i: int|
            0 <= i < r@.len() ==> (#[trigger] r@[i]).x as int == apply_x(*tmat, cloud_ref@[i])
                && r@[i].y as int == apply_y(*tmat, cloud_ref@[i]),
{
    let mut out: Vec<Point2D> = Vec::new();
    let mut i: usize = 0;
    while i < cloud_ref.len()
        invariant
            0 <= i <= cloud_ref@.len(),
            out@.len() == i,
            crate::geometry::cloud_in_bounds(cloud_ref@),
            rot_wf(*tmat),
            trans_bounded(*tmat, TRANS_HARD_LIMIT as int),
            forall|j: int|
                0 <= j < i ==> (#[trigger] out@[j]).x as int == apply_x(*tmat, cloud_ref@[j])
                    && out@[j].y as int == apply_y(*tmat, cloud_ref@[j]),
        decreases cloud_ref@.len() - i,
    {
        let p = transform_point(tmat, &cloud_ref[i]);
        out.push(p);
        i = i + 1;
    }
    out
}

} // verus!
