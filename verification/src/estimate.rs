//! Closed-form least-squares rigid transform from paired correspondences.
//!
//! For 2D clouds the optimal proper rotation of the classical SVD
//! decomposition of the cross-covariance has a closed form: it points along
//! the vector `(a, b)` of the covariance's trace and skew.  Normalizing that
//! vector yields the rotation the SVD route yields after its reflection
//! correction, so a proper rotation (positive determinant) is returned for
//! every non-degenerate input; a reflection is impossible by construction.
//! Degenerate geometry — both sums exactly zero — is reported as data.

use vstd::prelude::*;
use crate::numeric::{
    SCALE, COORD_LIMIT, CLOUD_LIMIT, COV_LIMIT, abs_i, lemma_abs_mul_bound, lemma_div_mag,
    lemma_div_exact_multiple, lemma_div_shift_multiple, div_floor_i128,
};
use crate::geometry::{Point2D, point_in_bounds, cloud_in_bounds};
use crate::errors::IcpError;
use crate::transform::{
    RigidTransform2D, identity_spec, transform_wf, normalize_spec, normalize_rotation,
    lemma_normalize_spec_axis, lemma_normalize_spec_props,
};

verus! {

/// Per-step magnitude bound of the covariance accumulation (2^84).
pub const COV_STEP: i128 = 19342813113834066795298816;

/// The points of `reference` selected by `corr`, in correspondence order.
pub open spec fn sel_seq(reference: Seq<Point2D>, corr: Seq<usize>) -> Seq<Point2D> {
    Seq::new(corr.len(), |i: int| reference[corr[i] as int])
}

/// Sum of the x coordinates of a cloud.
pub open spec fn sum_x(s: Seq<Point2D>) -> int
    decreases s.len(),
{
    if s.len() == 0 {
        0
    } else {
        sum_x(s.drop_last()) + s.last().x
    }
}

/// Sum of the y coordinates of a cloud.
pub open spec fn sum_y(s: Seq<Point2D>) -> int
    decreases s.len(),
{
    if s.len() == 0 {
        0
    } else {
        sum_y(s.drop_last()) + s.last().y
    }
}

/// Trace part of the centered cross-covariance of the paired clouds:
/// the sum of the products of corresponding centered coordinates.
pub open spec fn dot_cov(p: Seq<Point2D>, q: Seq<Point2D>, pcx: int, pcy: int, qcx: int, qcy: int) -> int
    recommends
        p.len() == q.len(),
    decreases p.len(),
{
    if p.len() == 0 {
        0
    } else {
        dot_cov(p.drop_last(), q.drop_last(), pcx, pcy, qcx, qcy) + (p.last().x - pcx) * (
        q.last().x - qcx) + (p.last().y - pcy) * (q.last().y - qcy)
    }
}

/// Skew part of the centered cross-covariance of the paired clouds.
pub open spec fn cross_cov(p: Seq<Point2D>, q: Seq<Point2D>, pcx: int, pcy: int, qcx: int, qcy: int) -> int
    recommends
        p.len() == q.len(),
    decreases p.len(),
{
    if p.len() == 0 {
        0
    } else {
        cross_cov(p.drop_last(), q.drop_last(), pcx, pcy, qcx, qcy) + (p.last().x - pcx) * (
        q.last().y - qcy) - (p.last().y - pcy) * (q.last().x - qcx)
    }
}

/// The least-squares rigid transform mapping the selected reference points
/// onto their targets, as exact fixed-point arithmetic: centroids by floor
/// division, rotation along the covariance vector `(a, b)`, translation
/// `q̄ - R·p̄`.
pub open spec fn estimate_spec(
    reference: Seq<Point2D>,
    target: Seq<Point2D>,
    corr: Seq<usize>,
) -> Result<RigidTransform2D, IcpError>
    recommends
        corr.len() == target.len(),
{
    if corr.len() < 2 {
        Err(IcpError::InsufficientCorrespondences)
    } else {
        let p = sel_seq(reference, corr);
        let n = corr.len() as int;
        let pcx = sum_x(p) / n;
        let pcy = sum_y(p) / n;
        let qcx = sum_x(target) / n;
        let qcy = sum_y(target) / n;
        let a = dot_cov(p, target, pcx, pcy, qcx, qcy);
        let b = cross_cov(p, target, pcx, pcy, qcx, qcy);
        if a == 0 && b == 0 {
            Err(IcpError::DegenerateGeometry)
        } else {
            let rot = normalize_spec(a, b);
            let tx = qcx - (rot.0 * pcx - rot.1 * pcy) / (SCALE as int);
            let ty = qcy - (rot.1 * pcx + rot.0 * pcy) / (SCALE as int);
            Ok(
                RigidTransform2D {
                    c: rot.0 as i64,
                    s: rot.1 as i64,
                    tx: tx as i64,
                    ty: ty as i64,
                },
            )
        }
    }
}

/// One step of the coordinate sums over a growing prefix.
proof fn lemma_sum_step(s: Seq<Point2D>, j: int)
    requires
        0 <= j < s.len(),
    ensures
        sum_x(s.take(j + 1)) == sum_x(s.take(j)) + s[j].x,
        sum_y(s.take(j + 1)) == sum_y(s.take(j)) + s[j].y,
{
    let t = s.take(j + 1);
    assert(t.drop_last() =~= s.take(j));
    assert(t.last() == s[j]);
}

/// One step of the covariance sums over growing prefixes.
proof fn lemma_cov_step(
    p: Seq<Point2D>,
    q: Seq<Point2D>,
    pcx: int,
    pcy: int,
    qcx: int,
    qcy: int,
    j: int,
)
    requires
        0 <= j < p.len(),
        0 <= j < q.len(),
    ensures
        dot_cov(p.take(j + 1), q.take(j + 1), pcx, pcy, qcx, qcy) == dot_cov(
            p.take(j),
            q.take(j),
            pcx,
            pcy,
            qcx,
            qcy,
        ) + (p[j].x - pcx) * (q[j].x - qcx) + (p[j].y - pcy) * (q[j].y - qcy),
        cross_cov(p.take(j + 1), q.take(j + 1), pcx, pcy, qcx, qcy) == cross_cov(
            p.take(j),
            q.take(j),
            pcx,
            pcy,
            qcx,
            qcy,
        ) + (p[j].x - pcx) * (q[j].y - qcy) - (p[j].y - pcy) * (q[j].x - qcx),
{
    let tp = p.take(j + 1);
    let tq = q.take(j + 1);
    assert(tp.drop_last() =~= p.take(j));
    assert(tq.drop_last() =~= q.take(j));
    assert(tp.last() == p[j]);
    assert(tq.last() == q[j]);
}

/// Estimates the rigid transform aligning the selected reference points onto
/// the target points, minimizing the summed squared pairing error over
/// proper rotations.
///
/// Fails with `InsufficientCorrespondences` exactly when fewer than two
/// pairs are given, and with `DegenerateGeometry` exactly when the centered
/// cross-covariance carries no rotation information (both sums zero).  On
/// success the rotation block is a unit rotation up to fixed-point
/// granularity — its determinant is positive, never a reflection.
pub fn estimate(
    reference: &Vec<Point2D>,
    target: &Vec<Point2D>,
    correspondences: &Vec<usize>,
) -> (r: Result<RigidTransform2D, IcpError>)
    requires
        cloud_in_bounds(reference@),
        cloud_in_bounds(target@),
        correspondences@.len() == target@.len(),
        forall|i: int|
            0 <= i < correspondences@.len() ==> (#[trigger] correspondences@[i]) < reference@.len(),
    ensures
        r == estimate_spec(reference@, target@, correspondences@),
        r == Err::<RigidTransform2D, IcpError>(IcpError::InsufficientCorrespondences)
            <==> correspondences@.len() < 2,
        r == Err::<RigidTransform2D, IcpError>(IcpError::DegenerateGeometry) <==> ({
            let p = sel_seq(reference@, correspondences@);
            let n = correspondences@.len() as int;
            let pcx = sum_x(p) / n;
            let pcy = sum_y(p) / n;
            let qcx = sum_x(target@) / n;
            let qcy = sum_y(target@) / n;
            &&& correspondences@.len() >= 2
            &&& dot_cov(p, target@, pcx, pcy, qcx, qcy) == 0
            &&& cross_cov(p, target@, pcx, pcy, qcx, qcy) == 0
        }),
        r matches Ok(t) ==> transform_wf(t),
{
    let n: usize = correspondences.len();
    if n < 2 {
        return Err(IcpError::InsufficientCorrespondences);
    }
    let ghost p = sel_seq(reference@, correspondences@);
    let ghost q = target@;

    let mut sx_p: i128 = 0;
    let mut sy_p: i128 = 0;
    let mut sx_q: i128 = 0;
    let mut sy_q: i128 = 0;
    let mut i: usize = 0;
    while i < n
        invariant
            0 <= i <= n,
            n == correspondences@.len(),
            n == target@.len(),
            n <= CLOUD_LIMIT,
            cloud_in_bounds(reference@),
            cloud_in_bounds(target@),
            forall|k: int|
                0 <= k < correspondences@.len() ==> (#[trigger] correspondences@[k])
                    < reference@.len(),
            p == sel_seq(reference@, correspondences@),
            q == target@,
            sx_p == sum_x(p.take(i as int)),
            sy_p == sum_y(p.take(i as int)),
            sx_q == sum_x(q.take(i as int)),
            sy_q == sum_y(q.take(i as int)),
            -(i as int) * (COORD_LIMIT as int) <= sx_p <= (i as int) * (COORD_LIMIT as int),
            -(i as int) * (COORD_LIMIT as int) <= sy_p <= (i as int) * (COORD_LIMIT as int),
            -(i as int) * (COORD_LIMIT as int) <= sx_q <= (i as int) * (COORD_LIMIT as int),
            -(i as int) * (COORD_LIMIT as int) <= sy_q <= (i as int) * (COORD_LIMIT as int),
        decreases n - i,
    {
        let pi = reference[correspondences[i]];
        let qi = target[i];
        proof {
            lemma_sum_step(p, i as int);
            lemma_sum_step(q, i as int);
            assert(p[i as int] == reference@[correspondences@[i as int] as int]);
        }
        sx_p = sx_p + pi.x as i128;
        sy_p = sy_p + pi.y as i128;
        sx_q = sx_q + qi.x as i128;
        sy_q = sy_q + qi.y as i128;
        i = i + 1;
    }
    proof {
        assert(p.take(n as int) =~= p);
        assert(q.take(n as int) =~= q);
    }
    let nd: i128 = n as i128;
    let pcx: i128 = div_floor_i128(sx_p, nd);
    let pcy: i128 = div_floor_i128(sy_p, nd);
    let qcx: i128 = div_floor_i128(sx_q, nd);
    let qcy: i128 = div_floor_i128(sy_q, nd);
    proof {
        lemma_div_mag(sx_p as int, (n as int) * (COORD_LIMIT as int), n as int);
        lemma_div_mag(sy_p as int, (n as int) * (COORD_LIMIT as int), n as int);
        lemma_div_mag(sx_q as int, (n as int) * (COORD_LIMIT as int), n as int);
        lemma_div_mag(sy_q as int, (n as int) * (COORD_LIMIT as int), n as int);
        lemma_div_exact_multiple(COORD_LIMIT as int, n as int);
        assert(((n as int) * (COORD_LIMIT as int)) / (n as int) == COORD_LIMIT as int);
    }
    assert(-(COORD_LIMIT as i128) - 1 <= pcx <= COORD_LIMIT as i128);
    assert(-(COORD_LIMIT as i128) - 1 <= pcy <= COORD_LIMIT as i128);
    assert(-(COORD_LIMIT as i128) - 1 <= qcx <= COORD_LIMIT as i128);
    assert(-(COORD_LIMIT as i128) - 1 <= qcy <= COORD_LIMIT as i128);

    let mut a: i128 = 0;
    let mut b: i128 = 0;
    let mut j: usize = 0;
    while j < n
        invariant
            0 <= j <= n,
            n == correspondences@.len(),
            n == target@.len(),
            n <= CLOUD_LIMIT,
            cloud_in_bounds(reference@),
            cloud_in_bounds(target@),
            forall|k: int|
                0 <= k < correspondences@.len() ==> (#[trigger] correspondences@[k])
                    < reference@.len(),
            p == sel_seq(reference@, correspondences@),
            q == target@,
            -(COORD_LIMIT as i128) - 1 <= pcx <= COORD_LIMIT as i128,
            -(COORD_LIMIT as i128) - 1 <= pcy <= COORD_LIMIT as i128,
            -(COORD_LIMIT as i128) - 1 <= qcx <= COORD_LIMIT as i128,
            -(COORD_LIMIT as i128) - 1 <= qcy <= COORD_LIMIT as i128,
            a == dot_cov(p.take(j as int), q.take(j as int), pcx as int, pcy as int, qcx as int,
                qcy as int,
            ),
            b == cross_cov(p.take(j as int), q.take(j as int), pcx as int, pcy as int, qcx as int,
                qcy as int,
            ),
            -(j as int) * COV_STEP <= a <= (j as int) * COV_STEP,
            -(j as int) * COV_STEP <= b <= (j as int) * COV_STEP,
        decreases n - j,
    {
        let pj = reference[correspondences[j]];
        let qj = target[j];
        let dxp: i128 = pj.x as i128 - pcx;
        let dyp: i128 = pj.y as i128 - pcy;
        let dxq: i128 = qj.x as i128 - qcx;
        let dyq: i128 = qj.y as i128 - qcy;
        proof {
            lemma_cov_step(p, q, pcx as int, pcy as int, qcx as int, qcy as int, j as int);
            assert(p[j as int] == reference@[correspondences@[j as int] as int]);
            assert(crate::geometry::point_in_bounds(reference@[correspondences@[j as int] as int]));
            assert(crate::geometry::point_in_bounds(target@[j as int]));
            assert(-2 * (COORD_LIMIT as int) - 1 <= dxp as int <= 2 * (COORD_LIMIT as int) + 1);
            assert(-2 * (COORD_LIMIT as int) - 1 <= dyp as int <= 2 * (COORD_LIMIT as int) + 1);
            assert(-2 * (COORD_LIMIT as int) - 1 <= dxq as int <= 2 * (COORD_LIMIT as int) + 1);
            assert(-2 * (COORD_LIMIT as int) - 1 <= dyq as int <= 2 * (COORD_LIMIT as int) + 1);
            lemma_abs_mul_bound(dxp as int, dxq as int, 2 * (COORD_LIMIT as int) + 1, 2 * (
            COORD_LIMIT as int) + 1);
            lemma_abs_mul_bound(dyp as int, dyq as int, 2 * (COORD_LIMIT as int) + 1, 2 * (
            COORD_LIMIT as int) + 1);
            lemma_abs_mul_bound(dxp as int, dyq as int, 2 * (COORD_LIMIT as int) + 1, 2 * (
            COORD_LIMIT as int) + 1);
            lemma_abs_mul_bound(dyp as int, dxq as int, 2 * (COORD_LIMIT as int) + 1, 2 * (
            COORD_LIMIT as int) + 1);
            assert((2 * (COORD_LIMIT as int) + 1) * (2 * (COORD_LIMIT as int) + 1)
                == 4835703278462914745335809) by (nonlinear_arith)
                requires
                    COORD_LIMIT == 1099511627776,
            ;
        }
        a = a + (dxp * dxq + dyp * dyq);
        b = b + (dxp * dyq - dyp * dxq);
        j = j + 1;
    }
    proof {
        assert(p.take(n as int) =~= p);
        assert(q.take(n as int) =~= q);
        assert(-(n as int) * COV_STEP >= -COV_LIMIT && (n as int) * COV_STEP <= COV_LIMIT)
            by (nonlinear_arith)
            requires
                n <= CLOUD_LIMIT,
                CLOUD_LIMIT == 1000000000,
                COV_STEP == 19342813113834066795298816,
                COV_LIMIT == 1329227995784915872903807060280344576,
        ;
    }
    if a == 0 && b == 0 {
        return Err(IcpError::DegenerateGeometry);
    }
    let rot = normalize_rotation(a, b);
    proof {
        lemma_abs_mul_bound(rot.0 as int, pcx as int, SCALE as int, COORD_LIMIT as int + 1);
        lemma_abs_mul_bound(rot.1 as int, pcy as int, SCALE as int, COORD_LIMIT as int + 1);
        lemma_abs_mul_bound(rot.1 as int, pcx as int, SCALE as int, COORD_LIMIT as int + 1);
        lemma_abs_mul_bound(rot.0 as int, pcy as int, SCALE as int, COORD_LIMIT as int + 1);
    }
    let rx: i128 = rot.0 as i128 * pcx - rot.1 as i128 * pcy;
    let ry: i128 = rot.1 as i128 * pcx + rot.0 as i128 * pcy;
    let gx: i128 = div_floor_i128(rx, SCALE as i128);
    let gy: i128 = div_floor_i128(ry, SCALE as i128);
    proof {
        lemma_div_mag(rx as int, 2 * (SCALE as int) * (COORD_LIMIT as int + 1), SCALE as int);
        lemma_div_mag(ry as int, 2 * (SCALE as int) * (COORD_LIMIT as int + 1), SCALE as int);
        assert((2 * (SCALE as int) * (COORD_LIMIT as int + 1)) / (SCALE as int) == 2 * (
        COORD_LIMIT as int + 1)) by {
            assert(2 * (SCALE as int) * (COORD_LIMIT as int + 1) == (SCALE as int) * (2 * (
            COORD_LIMIT as int + 1))) by (nonlinear_arith);
            lemma_div_exact_multiple(2 * (COORD_LIMIT as int + 1), SCALE as int);
        }
    }
    let tx: i64 = (qcx - gx) as i64;
    let ty: i64 = (qcy - gy) as i64;
    Ok(RigidTransform2D { c: rot.0, s: rot.1, tx, ty })
}

/// The self-covariance skew of a cloud vanishes.
proof fn lemma_cross_cov_self(p: Seq<Point2D>, q: Seq<Point2D>, cx: int, cy: int, dx: int, dy: int)
    requires
        p.len() == q.len(),
        forall|k: int|
            0 <= k < p.len() ==> (#[trigger] q[k]).x == p[k].x + dx && q[k].y == p[k].y + dy,
    ensures
        cross_cov(p, q, cx, cy, cx + dx, cy + dy) == 0,
    decreases p.len(),
{
    if p.len() > 0 {
        lemma_cross_cov_self(p.drop_last(), q.drop_last(), cx, cy, dx, dy);
        let lx = p.last().x - cx;
        let ly = p.last().y - cy;
        assert(q.last().x - (cx + dx) == lx && q.last().y - (cy + dy) == ly);
        assert(lx * ly - ly * lx == 0) by (nonlinear_arith);
    }
}

/// The self-covariance trace of a cloud is a sum of squares: nonnegative,
/// and at least the contribution of any single point.
proof fn lemma_dot_cov_self_nonneg(
    p: Seq<Point2D>,
    q: Seq<Point2D>,
    cx: int,
    cy: int,
    dx: int,
    dy: int,
)
    requires
        p.len() == q.len(),
        forall|k: int|
            0 <= k < p.len() ==> (#[trigger] q[k]).x == p[k].x + dx && q[k].y == p[k].y + dy,
    ensures
        dot_cov(p, q, cx, cy, cx + dx, cy + dy) >= 0,
        forall|k: int|
            0 <= k < p.len() ==> dot_cov(p, q, cx, cy, cx + dx, cy + dy) >= ((#[trigger] p[k]).x
                - cx) * (p[k].x - cx) + (p[k].y - cy) * (p[k].y - cy),
    decreases p.len(),
{
    if p.len() > 0 {
        lemma_dot_cov_self_nonneg(p.drop_last(), q.drop_last(), cx, cy, dx, dy);
        let lx = p.last().x - cx;
        let ly = p.last().y - cy;
        assert(q.last().x - (cx + dx) == lx && q.last().y - (cy + dy) == ly);
        assert(lx * lx >= 0 && ly * ly >= 0) by (nonlinear_arith);
        assert(forall|k: int|
            0 <= k < p.len() - 1 ==> p.drop_last()[k] == p[k]);
    }
}

/// Sums shift linearly under a rigid translation of the cloud.
proof fn lemma_sum_shift(p: Seq<Point2D>, q: Seq<Point2D>, dx: int, dy: int)
    requires
        p.len() == q.len(),
        forall|k: int|
            0 <= k < p.len() ==> (#[trigger] q[k]).x == p[k].x + dx && q[k].y == p[k].y + dy,
    ensures
        sum_x(q) == sum_x(p) + dx * (p.len() as int),
        sum_y(q) == sum_y(p) + dy * (p.len() as int),
    decreases p.len(),
{
    if p.len() == 0 {
        assert(dx * 0 == 0) by (nonlinear_arith);
        assert(dy * 0 == 0) by (nonlinear_arith);
    } else {
        lemma_sum_shift(p.drop_last(), q.drop_last(), dx, dy);
        assert(dx * (p.len() as int) == dx * (p.len() as int - 1) + dx) by (nonlinear_arith);
        assert(dy * (p.len() as int) == dy * (p.len() as int - 1) + dy) by (nonlinear_arith);
    }
}

/// A point of the cloud differing from another differs from the centroid
/// point, so the self-covariance trace is strictly positive.
proof fn lemma_dot_cov_self_positive(
    p: Seq<Point2D>,
    q: Seq<Point2D>,
    cx: int,
    cy: int,
    dx: int,
    dy: int,
    i: int,
    j: int,
)
    requires
        p.len() == q.len(),
        forall|k: int|
            0 <= k < p.len() ==> (#[trigger] q[k]).x == p[k].x + dx && q[k].y == p[k].y + dy,
        0 <= i < p.len(),
        0 <= j < p.len(),
        p[i] != p[j],
    ensures
        dot_cov(p, q, cx, cy, cx + dx, cy + dy) >= 1,
{
    lemma_dot_cov_self_nonneg(p, q, cx, cy, dx, dy);
    if p[i].x != cx || p[i].y != cy {
        assert((p[i].x - cx) * (p[i].x - cx) + (p[i].y - cy) * (p[i].y - cy) >= 1)
            by (nonlinear_arith)
            requires
                p[i].x != cx || p[i].y != cy,
        ;
    } else {
        assert(p[j].x != cx || p[j].y != cy);
        assert((p[j].x - cx) * (p[j].x - cx) + (p[j].y - cy) * (p[j].y - cy) >= 1)
            by (nonlinear_arith)
            requires
                p[j].x != cx || p[j].y != cy,
        ;
    }
}

/// Every transform the estimator returns has a rotation block whose
/// squared norm lies in the unit window — its determinant is positive and
/// as close to +1 as the representation holds, never a reflection — for
/// every input, including those whose raw covariance favors a reflection.
pub proof fn lemma_estimate_rotation_proper(
    reference: Seq<Point2D>,
    target: Seq<Point2D>,
    corr: Seq<usize>,
)
    requires
        estimate_spec(reference, target, corr) matches Ok(_),
    ensures
        ({
            let t = estimate_spec(reference, target, corr)->Ok_0;
            &&& SCALE * SCALE - 4 * SCALE <= t.c * t.c + t.s * t.s <= SCALE * SCALE + 1
            &&& t.c * t.c + t.s * t.s > 0
        }),
{
    let p = sel_seq(reference, corr);
    let n = corr.len() as int;
    let pcx = sum_x(p) / n;
    let pcy = sum_y(p) / n;
    let qcx = sum_x(target) / n;
    let qcy = sum_y(target) / n;
    let a = dot_cov(p, target, pcx, pcy, qcx, qcy);
    let b = cross_cov(p, target, pcx, pcy, qcx, qcy);
    lemma_normalize_spec_props(a, b);
    let rot = normalize_spec(a, b);
    let t = estimate_spec(reference, target, corr)->Ok_0;
    assert(t.c == rot.0 as i64 && t.s == rot.1 as i64);
    assert(SCALE * SCALE - 4 * SCALE > 0) by (nonlinear_arith)
        requires
            SCALE == 1073741824,
    ;
}

/// The rotation the estimator returns points along the covariance vector
/// `(a, b)` — the closed-form optimum of the paired least-squares problem:
/// its cross product with `(a, b)` is at most `2 * (|a| + |b|)`, about
/// `2^-29` radian of direction error, where an arbitrary unit rotation
/// could reach about `SCALE` times that.
pub proof fn lemma_estimate_rotation_direction(
    reference: Seq<Point2D>,
    target: Seq<Point2D>,
    corr: Seq<usize>,
)
    requires
        estimate_spec(reference, target, corr) matches Ok(_),
    ensures
        ({
            let p = sel_seq(reference, corr);
            let n = corr.len() as int;
            let pcx = sum_x(p) / n;
            let pcy = sum_y(p) / n;
            let qcx = sum_x(target) / n;
            let qcy = sum_y(target) / n;
            let a = dot_cov(p, target, pcx, pcy, qcx, qcy);
            let b = cross_cov(p, target, pcx, pcy, qcx, qcy);
            let t = estimate_spec(reference, target, corr)->Ok_0;
            -2 * (abs_i(a) + abs_i(b)) <= t.c * b - t.s * a <= 2 * (abs_i(a) + abs_i(b))
        }),
{
    let p = sel_seq(reference, corr);
    let n = corr.len() as int;
    let pcx = sum_x(p) / n;
    let pcy = sum_y(p) / n;
    let qcx = sum_x(target) / n;
    let qcy = sum_y(target) / n;
    let a = dot_cov(p, target, pcx, pcy, qcx, qcy);
    let b = cross_cov(p, target, pcx, pcy, qcx, qcy);
    lemma_normalize_spec_props(a, b);
    crate::transform::lemma_normalize_spec_direction(a, b);
    let rot = normalize_spec(a, b);
    let t = estimate_spec(reference, target, corr)->Ok_0;
    assert(t.c == rot.0 as i64 && t.s == rot.1 as i64);
}

/// Estimating a cloud against itself under the identity correspondence
/// yields exactly the identity transform.
///
/// Any two distinct points `p[di] != p[dj]` witness non-degeneracy.
pub proof fn lemma_estimate_self_identity(p: Seq<Point2D>, corr: Seq<usize>, di: int, dj: int)
    requires
        cloud_in_bounds(p),
        corr.len() == p.len(),
        p.len() >= 2,
        forall|k: int| 0 <= k < corr.len() ==> (#[trigger] corr[k]) as int == k,
        0 <= di < p.len(),
        0 <= dj < p.len(),
        p[di] != p[dj],
    ensures
        estimate_spec(p, p, corr) == Ok::<RigidTransform2D, IcpError>(identity_spec()),
{
    lemma_estimate_translation(p, p, corr, 0, 0, di, dj);
}

/// Estimating a cloud against its exact translate under the identity
/// correspondence recovers exactly the identity rotation and the
/// translation.
pub proof fn lemma_estimate_translation(
    p: Seq<Point2D>,
    q: Seq<Point2D>,
    corr: Seq<usize>,
    dx: int,
    dy: int,
    di: int,
    dj: int,
)
    requires
        cloud_in_bounds(p),
        cloud_in_bounds(q),
        corr.len() == p.len(),
        q.len() == p.len(),
        p.len() >= 2,
        forall|k: int| 0 <= k < corr.len() ==> (#[trigger] corr[k]) as int == k,
        forall|k: int|
            0 <= k < p.len() ==> (#[trigger] q[k]).x == p[k].x + dx && q[k].y == p[k].y + dy,
        0 <= di < p.len(),
        0 <= dj < p.len(),
        p[di] != p[dj],
    ensures
        estimate_spec(p, q, corr) == Ok::<RigidTransform2D, IcpError>(
            RigidTransform2D { c: SCALE, s: 0, tx: dx as i64, ty: dy as i64 },
        ),
{
    assert(sel_seq(p, corr) =~= p);
    assert(q[0].x == p[0].x + dx && q[0].y == p[0].y + dy);
    assert(point_in_bounds(p[0]) && point_in_bounds(q[0]));
    assert(-2 * (COORD_LIMIT as int) <= dx <= 2 * (COORD_LIMIT as int));
    assert(-2 * (COORD_LIMIT as int) <= dy <= 2 * (COORD_LIMIT as int));
    lemma_estimate_matched_translation(p, q, corr, dx, dy, di, dj);
}

/// Estimating recovers a pure translation exactly, whenever each target
/// point is the corresponding selected reference point translated by a
/// fixed offset — whatever shape the correspondence map has.
pub proof fn lemma_estimate_matched_translation(
    refc: Seq<Point2D>,
    target: Seq<Point2D>,
    corr: Seq<usize>,
    dx: int,
    dy: int,
    di: int,
    dj: int,
)
    requires
        corr.len() == target.len(),
        corr.len() >= 2,
        -2 * (COORD_LIMIT as int) <= dx <= 2 * (COORD_LIMIT as int),
        -2 * (COORD_LIMIT as int) <= dy <= 2 * (COORD_LIMIT as int),
        forall|k: int|
            0 <= k < corr.len() ==> (#[trigger] target[k]).x == sel_seq(refc, corr)[k].x + dx
                && target[k].y == sel_seq(refc, corr)[k].y + dy,
        0 <= di < corr.len(),
        0 <= dj < corr.len(),
        sel_seq(refc, corr)[di] != sel_seq(refc, corr)[dj],
    ensures
        estimate_spec(refc, target, corr) == Ok::<RigidTransform2D, IcpError>(
            RigidTransform2D { c: SCALE, s: 0, tx: dx as i64, ty: dy as i64 },
        ),
{
    let p = sel_seq(refc, corr);
    let q = target;
    let n = corr.len() as int;
    let pcx = sum_x(p) / n;
    let pcy = sum_y(p) / n;
    lemma_sum_shift(p, q, dx, dy);
    lemma_div_shift_multiple(sum_x(p), dx, n);
    lemma_div_shift_multiple(sum_y(p), dy, n);
    let qcx = sum_x(q) / n;
    let qcy = sum_y(q) / n;
    assert(qcx == pcx + dx);
    assert(qcy == pcy + dy);
    let a = dot_cov(p, q, pcx, pcy, qcx, qcy);
    let b = cross_cov(p, q, pcx, pcy, qcx, qcy);
    lemma_cross_cov_self(p, q, pcx, pcy, dx, dy);
    lemma_dot_cov_self_positive(p, q, pcx, pcy, dx, dy, di, dj);
    assert(b == 0);
    assert(a >= 1);
    lemma_normalize_spec_axis(a);
    let rot = normalize_spec(a, b);
    assert(rot == (SCALE as int, 0int));
    assert(rot.0 * pcx - rot.1 * pcy == (SCALE as int) * pcx) by (nonlinear_arith)
        requires
            rot.0 == SCALE as int,
            rot.1 == 0,
    ;
    assert(rot.1 * pcx + rot.0 * pcy == (SCALE as int) * pcy) by (nonlinear_arith)
        requires
            rot.0 == SCALE as int,
            rot.1 == 0,
    ;
    lemma_div_exact_multiple(pcx, SCALE as int);
    lemma_div_exact_multiple(pcy, SCALE as int);
    assert(qcx - ((SCALE as int) * pcx) / (SCALE as int) == dx);
    assert(qcy - ((SCALE as int) * pcy) / (SCALE as int) == dy);
}

} // verus!
