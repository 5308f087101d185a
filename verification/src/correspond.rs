//! Correspondence search: each target point is paired with its nearest
//! reference point.

use vstd::prelude::*;
use crate::errors::IcpError;
use crate::geometry::{Point2D, cloud_in_bounds, sq_dist};
use crate::spatial::{SpatialIndex, nearest_idx, lemma_nearest_idx_props};

verus! {

/// The correspondence map of a target cloud against a nonempty reference
/// cloud: entry `i` is the index of the reference point nearest to target
/// point `i`, the first-inserted point winning ties.
pub open spec fn corr_spec(reference: Seq<Point2D>, target: Seq<Point2D>) -> Seq<usize>
    recommends
        reference.len() >= 1,
{
    Seq::new(target.len(), |i: int| nearest_idx(reference, target[i]) as usize)
}

/// Maps every target point to the index of its nearest reference point.
///
/// Fails with `EmptyReference` exactly when the reference cloud is empty;
/// an empty target yields an empty map.  On success the map has one entry
/// per target point, and every entry is a valid reference index.
pub fn find_correspondences(reference: &Vec<Point2D>, target: &Vec<Point2D>) -> (r: Result<
    Vec<usize>,
    IcpError,
>)
    requires
        cloud_in_bounds(reference@),
        cloud_in_bounds(target@),
    ensures
        reference@.len() == 0 <==> r == Result::<Vec<usize>, IcpError>::Err(
            IcpError::EmptyReference,
        ),
        reference@.len() > 0 ==> {
            &&& r matches Ok(m)
            &&& m@ == corr_spec(reference@, target@)
            &&& m@.len() == target@.len()
            &&& forall|i: int| 0 <= i < m@.len() ==> (#[trigger] m@[i]) < reference@.len()
        },
{
    let index = SpatialIndex::build(reference);
    if reference.len() == 0 {
        return Err(IcpError::EmptyReference);
    }
    let mut m: Vec<usize> = Vec::new();
    let mut i: usize = 0;
    while i < target.len()
        invariant
            0 <= i <= target@.len(),
            index@ == reference@,
            reference@.len() > 0,
            cloud_in_bounds(reference@),
            cloud_in_bounds(target@),
            m@.len() == i,
            forall|j: int|
                0 <= j < i ==> (#[trigger] m@[j]) as int == nearest_idx(reference@, target@[j]),
            forall|j: int| 0 <= j < i ==> (#[trigger] m@[j]) < reference@.len(),
        decreases target@.len() - i,
    {
        let q = target[i];
        match index.nearest(&q) {
            Ok((id, _d)) => {
                m.push(id);
            },
            Err(e) => {
                return Err(e);
            },
        }
        i = i + 1;
    }
    proof {
        assert(m@ =~= corr_spec(reference@, target@));
    }
    Ok(m)
}

/// Every entry of a correspondence map against a nonempty reference is a
/// valid index, and points to a nearest reference point.
pub proof fn lemma_corr_spec_valid(reference: Seq<Point2D>, target: Seq<Point2D>)
    requires
        reference.len() >= 1,
        reference.len() <= crate::numeric::CLOUD_LIMIT,
    ensures
        corr_spec(reference, target).len() == target.len(),
        forall|i: int|
            0 <= i < target.len() ==> ((#[trigger] corr_spec(reference, target)[i]) as int)
                < reference.len(),
        forall|i: int, j: int|
            0 <= i < target.len() && 0 <= j < reference.len() ==> sq_dist(
                reference[corr_spec(reference, target)[i] as int],
                target[i],
            ) <= sq_dist(#[trigger] reference[j], #[trigger] target[i]),
{
    assert forall|i: int|
        0 <= i < target.len() implies ((#[trigger] corr_spec(reference, target)[i]) as int)
        < reference.len() by {
        lemma_nearest_idx_props(reference, target[i]);
    }
    assert forall|i: int, j: int|
        0 <= i < target.len() && 0 <= j < reference.len() implies sq_dist(
        reference[corr_spec(reference, target)[i] as int],
        target[i],
    ) <= sq_dist(#[trigger] reference[j], #[trigger] target[i]) by {
        lemma_nearest_idx_props(reference, target[i]);
        assert(corr_spec(reference, target)[i] as int == nearest_idx(reference, target[i]));
        assert(sq_dist(reference[nearest_idx(reference, target[i])], target[i]) <= sq_dist(
            reference[j],
            target[i],
        ));
    }
}

} // verus!
