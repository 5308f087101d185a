//! Points, point clouds, and the squared-distance metric.
//!
//! A cloud is an ordered `Vec<Point2D>`; the homogeneous third coordinate of
//! the classical representation is implicit (always one) and never stored.

use vstd::prelude::*;
use crate::numeric::{COORD_LIMIT, CLOUD_LIMIT};

verus! {

/// A 2D point in fixed-point ticks (`SCALE` ticks per world unit).
#[derive(Clone, Copy, Debug, PartialEq, Eq, Structural)]
pub struct Point2D {
    pub x: i64,
    pub y: i64,
}

/// Both coordinates lie within the range the estimator accepts.
pub open spec fn point_in_bounds(p: Point2D) -> bool {
    &&& -COORD_LIMIT <= p.x <= COORD_LIMIT
    &&& -COORD_LIMIT <= p.y <= COORD_LIMIT
}

/// The cloud is small enough, and every point in-bounds, for the fixed-point
/// covariance sums of the estimator to stay in range.
pub open spec fn cloud_in_bounds(s: Seq<Point2D>) -> bool {
    &&& s.len() <= CLOUD_LIMIT
    &&& forall|i: int| 0 <= i < s.len() ==> point_in_bounds(#[trigger] s[i])
}

/// Squared Euclidean distance over the (x, y) components.
pub open spec fn sq_dist(p: Point2D, q: Point2D) -> int {
    (p.x - q.x) * (p.x - q.x) + (p.y - q.y) * (p.y - q.y)
}

/// Two points at squared distance zero are equal.
pub proof fn lemma_sq_dist_zero(p: Point2D, q: Point2D)
    by (nonlinear_arith)
    requires
        sq_dist(p, q) == 0,
    ensures
        p.x == q.x && p.y == q.y,
{
}

/// Squared distance is never negative.
pub proof fn lemma_sq_dist_nonneg(p: Point2D, q: Point2D)
    by (nonlinear_arith)
    ensures
        sq_dist(p, q) >= 0,
{
}

/// Computes `sq_dist` exactly for in-bounds points.
pub fn sq_dist_exec(p: &Point2D, q: &Point2D) -> (d: u128)
    requires
        point_in_bounds(*p),
        point_in_bounds(*q),
    ensures
        d as int == sq_dist(*p, *q),
{
    let dx: i128 = p.x as i128 - q.x as i128;
    let dy: i128 = p.y as i128 - q.y as i128;
    proof {
        crate::numeric::lemma_abs_mul_bound(dx as int, dx as int, 2 * COORD_LIMIT as int, 2
            * COORD_LIMIT as int);
        crate::numeric::lemma_abs_mul_bound(dy as int, dy as int, 2 * COORD_LIMIT as int, 2
            * COORD_LIMIT as int);
        assert(dx * dx >= 0) by (nonlinear_arith);
        assert(dy * dy >= 0) by (nonlinear_arith);
    }
    let sq: i128 = dx * dx + dy * dy;
    sq as u128
}

/// Runtime check that a cloud satisfies `cloud_in_bounds`.
pub fn cloud_within_bounds(c: &Vec<Point2D>) -> (b: bool)
    ensures
        b == cloud_in_bounds(c@),
{
    if c.len() > CLOUD_LIMIT {
        return false;
    }
    let mut i: usize = 0;
    while i < c.len()
        invariant
            0 <= i <= c@.len(),
            c@.len() <= CLOUD_LIMIT,
            forall|j: int| 0 <= j < i ==> point_in_bounds(#[trigger] c@[j]),
        decreases c@.len() - i,
    {
        let p = c[i];
        if p.x < -COORD_LIMIT || p.x > COORD_LIMIT || p.y < -COORD_LIMIT || p.y > COORD_LIMIT {
            return false;
        }
        i = i + 1;
    }
    true
}

} // verus!
