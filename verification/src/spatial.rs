//! Nearest-neighbor index over a reference cloud.
//!
//! The index is rebuilt from the reference cloud per search and queried once
//! per target point.  Ties at exactly equal squared distance go to the
//! first-inserted point.  The structure behind `build`/`nearest` may be
//! swapped (tree, grid) without touching callers; this one is a plain scan.

use vstd::prelude::*;
use crate::errors::IcpError;
use crate::geometry::{Point2D, point_in_bounds, cloud_in_bounds, sq_dist, sq_dist_exec};

verus! {

/// Index, among the first `k` points of `s`, of the point nearest to `q`;
/// the first of several equally near points wins.
pub open spec fn nearest_idx_upto(s: Seq<Point2D>, q: Point2D, k: nat) -> int
    recommends
        1 <= k <= s.len(),
    decreases k,
{
    if k <= 1 {
        0
    } else {
        let b = nearest_idx_upto(s, q, (k - 1) as nat);
        if sq_dist(s[k - 1], q) < sq_dist(s[b], q) {
            k - 1
        } else {
            b
        }
    }
}

/// Index of the point of `s` nearest to `q`, first-inserted point winning.
pub open spec fn nearest_idx(s: Seq<Point2D>, q: Point2D) -> int {
    nearest_idx_upto(s, q, s.len())
}

/// The prefix argmin is in range, minimal, and the least such index.
pub proof fn lemma_nearest_idx_upto_props(s: Seq<Point2D>, q: Point2D, k: nat)
    requires
        1 <= k <= s.len(),
    ensures
        0 <= nearest_idx_upto(s, q, k) < k,
        forall|j: int|
            0 <= j < k ==> sq_dist(s[nearest_idx_upto(s, q, k)], q) <= sq_dist(#[trigger] s[j], q),
        forall|j: int|
            0 <= j < nearest_idx_upto(s, q, k) ==> sq_dist(s[nearest_idx_upto(s, q, k)], q)
                < sq_dist(#[trigger] s[j], q),
    decreases k,
{
    if k > 1 {
        lemma_nearest_idx_upto_props(s, q, (k - 1) as nat);
    }
}

/// `nearest_idx` is in range, minimal, and the least minimizing index.
pub proof fn lemma_nearest_idx_props(s: Seq<Point2D>, q: Point2D)
    requires
        s.len() >= 1,
    ensures
        0 <= nearest_idx(s, q) < s.len(),
        forall|j: int|
            0 <= j < s.len() ==> sq_dist(s[nearest_idx(s, q)], q) <= sq_dist(#[trigger] s[j], q),
        forall|j: int|
            0 <= j < nearest_idx(s, q) ==> sq_dist(s[nearest_idx(s, q)], q) < sq_dist(
                #[trigger] s[j],
                q,
            ),
{
    lemma_nearest_idx_upto_props(s, q, s.len());
}

/// Nearest-neighbor query structure over a fixed reference cloud.
pub struct SpatialIndex {
    points: Vec<Point2D>,
}

impl View for SpatialIndex {
    type V = Seq<Point2D>;

    closed spec fn view(&self) -> Seq<Point2D> {
        self.points@
    }
}

impl SpatialIndex {
    /// Builds an index over a copy of the given reference cloud.
    pub fn build(points: &Vec<Point2D>) -> (idx: SpatialIndex)
        ensures
            idx@ == points@,
    {
        SpatialIndex { points: points.clone() }
    }

    /// Id of the indexed point nearest to `query`, with its squared distance.
    ///
    /// Fails with `EmptyReference` exactly when the index holds no point.
    /// Ties at equal distance go to the first-inserted point.
    pub fn nearest(&self, query: &Point2D) -> (r: Result<(usize, u128), IcpError>)
        requires
            cloud_in_bounds(self@),
            point_in_bounds(*query),
        ensures
            self@.len() == 0 ==> r == Result::<(usize, u128), IcpError>::Err(
                IcpError::EmptyReference,
            ),
            self@.len() > 0 ==> {
                &&& r matches Ok((i, d))
                &&& i as int == nearest_idx(self@, *query)
                &&& 0 <= i < self@.len()
                &&& d as int == sq_dist(self@[i as int], *query)
                &&& forall|j: int|
                    0 <= j < self@.len() ==> d as int <= sq_dist(#[trigger] self@[j], *query)
                &&& forall|j: int|
                    0 <= j < i ==> (d as int) < sq_dist(#[trigger] self@[j], *query)
            },
    {
        if self.points.len() == 0 {
            return Err(IcpError::EmptyReference);
        }
        let mut best: usize = 0;
        let mut best_d: u128 = sq_dist_exec(&self.points[0], query);
        let mut j: usize = 1;
        while j < self.points.len()
            invariant
                1 <= j <= self@.len(),
                cloud_in_bounds(self@),
                point_in_bounds(*query),
                best as int == nearest_idx_upto(self@, *query, j as nat),
                0 <= best < j,
                best_d as int == sq_dist(self@[best as int], *query),
            decreases self@.len() - j,
        {
            let d = sq_dist_exec(&self.points[j], query);
            if d < best_d {
                best = j;
                best_d = d;
            }
            j = j + 1;
        }
        proof {
            lemma_nearest_idx_props(self@, *query);
        }
        Ok((best, best_d))
    }
}

} // verus!
