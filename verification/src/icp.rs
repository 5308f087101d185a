//! The registration loop: iterated correspondence search and rigid-transform
//! estimation until convergence.
//!
//! Each iteration applies the cumulative alignment to the target cloud,
//! pairs the result against the reference, estimates the incremental fit,
//! and composes its inverse onto the cumulative alignment (the fixed
//! composition convention: `cumulative = incremental ∘ cumulative`).  The
//! returned transform maps the reference cloud onto the target cloud.
//! Failures of the correspondence search or the estimator propagate
//! unmodified; reaching the iteration cap is an informative outcome, not an
//! error.

use vstd::prelude::*;
use crate::numeric::{SCALE, COORD_LIMIT, TRANS_LIMIT, abs_i, lemma_div_exact_multiple};
use crate::geometry::{Point2D, point_in_bounds, cloud_in_bounds, sq_dist};
use crate::errors::IcpError;
use crate::transform::{
    RigidTransform2D, rot_wf, trans_bounded, transform_wf, identity_spec, apply_x, apply_y,
    invert_spec, compose_spec, invert, compose, transformed_cloud,
};
use crate::correspond::{corr_spec, find_correspondences};
use crate::estimate::{estimate_spec, estimate};

verus! {

/// Iteration cap and convergence threshold of the registration loop.  The
/// loop converges when no component of the cumulative transform moved by
/// `convergence_tolerance` ticks or more in one iteration.
#[derive(Clone, Copy, Debug, PartialEq, Eq, Structural)]
pub struct IcpConfig {
    pub max_iterations: usize,
    pub convergence_tolerance: i64,
}

/// How the registration loop stopped.
#[derive(Clone, Copy, Debug, PartialEq, Eq, Structural)]
pub enum IcpStatus {
    /// The cumulative transform stopped moving.
    Converged,
    /// The iteration cap was reached; the result is still usable.
    MaxIterationsReached,
}

/// Outcome of a registration run: the transform mapping the reference
/// cloud onto the target cloud, the mean squared pairing residual in
/// squared ticks, the iterations used, and how the loop stopped.
#[derive(Clone, Copy, Debug, PartialEq, Eq, Structural)]
pub struct IcpResult {
    pub transform: RigidTransform2D,
    pub residual: u128,
    pub iterations: usize,
    pub status: IcpStatus,
}

/// The cloud `c` carried through `t`, pointwise.
pub open spec fn apply_cloud_spec(t: RigidTransform2D, c: Seq<Point2D>) -> Seq<Point2D> {
    Seq::new(
        c.len(),
        |i: int| Point2D { x: apply_x(t, c[i]) as i64, y: apply_y(t, c[i]) as i64 },
    )
}

/// Every point of `c` stays within coordinate range when carried through `t`.
pub open spec fn cloud_applied_in_bounds(t: RigidTransform2D, c: Seq<Point2D>) -> bool {
    forall|i: int|
        0 <= i < c.len() ==> -COORD_LIMIT <= apply_x(t, #[trigger] c[i]) <= COORD_LIMIT
            && -COORD_LIMIT <= apply_y(t, c[i]) <= COORD_LIMIT
}

/// Summed squared distance between each applied target point and its
/// corresponding reference point.
pub open spec fn resid_sum(refc: Seq<Point2D>, applied: Seq<Point2D>, m: Seq<usize>) -> int
    recommends
        m.len() == applied.len(),
    decreases m.len(),
{
    if m.len() == 0 {
        0
    } else {
        resid_sum(refc, applied.drop_last(), m.drop_last()) + sq_dist(
            refc[m.last() as int],
            applied.last(),
        )
    }
}

/// Larger of two integers.
pub open spec fn max2(x: int, y: int) -> int {
    if x >= y {
        x
    } else {
        y
    }
}

/// Largest componentwise movement between two transforms.
pub open spec fn max_delta(a: RigidTransform2D, b: RigidTransform2D) -> int {
    max2(
        max2(abs_i(a.c - b.c) as int, abs_i(a.s - b.s) as int),
        max2(abs_i(a.tx - b.tx) as int, abs_i(a.ty - b.ty) as int),
    )
}

/// One iteration of the registration loop from cumulative alignment `cum`:
/// carry the target through `cum`, pair against the reference, estimate the
/// incremental fit, and compose its inverse onto `cum`.  Range exhaustion
/// of the fixed-point domain surfaces as `DegenerateGeometry`.
pub open spec fn icp_step_spec(
    refc: Seq<Point2D>,
    tgt: Seq<Point2D>,
    cum: RigidTransform2D,
) -> Result<(RigidTransform2D, u128), IcpError>
    recommends
        refc.len() >= 1,
{
    if !cloud_applied_in_bounds(cum, tgt) {
        Err(IcpError::DegenerateGeometry)
    } else {
        let transformed = apply_cloud_spec(cum, tgt);
        let m = corr_spec(refc, transformed);
        match estimate_spec(refc, transformed, m) {
            Err(e) => Err(e),
            Ok(fit) => {
                let newcum = compose_spec(invert_spec(fit), cum);
                if !trans_bounded(newcum, TRANS_LIMIT as int) {
                    Err(IcpError::DegenerateGeometry)
                } else {
                    let applied = apply_cloud_spec(newcum, tgt);
                    let resid = resid_sum(refc, applied, m) / (tgt.len() as int);
                    Ok((newcum, resid as u128))
                }
            },
        }
    }
}

/// The registration loop from cumulative alignment `cum`, with `done`
/// iterations behind it and `fuel` remaining: iterate `icp_step_spec`
/// until the transform stops moving or the fuel runs out.  `best_t` and
/// `best_r` carry the lowest-residual alignment seen so far, which is what
/// a run that exhausts its fuel hands back.  The returned transform is the
/// inverse of an alignment: it maps the reference onto the target.
pub open spec fn icp_loop_spec(
    refc: Seq<Point2D>,
    tgt: Seq<Point2D>,
    cum: RigidTransform2D,
    best_t: RigidTransform2D,
    best_r: u128,
    done: nat,
    fuel: nat,
    tol: int,
) -> Result<IcpResult, IcpError>
    recommends
        refc.len() >= 1,
        fuel >= 1,
    decreases fuel,
{
    match icp_step_spec(refc, tgt, cum) {
        Err(e) => Err(e),
        Ok((newcum, resid)) => {
            let keep_new = resid < best_r;
            let nbt = if keep_new {
                newcum
            } else {
                best_t
            };
            let nbr = if keep_new {
                resid
            } else {
                best_r
            };
            if max_delta(newcum, cum) < tol {
                Ok(
                    IcpResult {
                        transform: invert_spec(newcum),
                        residual: resid,
                        iterations: (done + 1) as usize,
                        status: IcpStatus::Converged,
                    },
                )
            } else if fuel <= 1 {
                Ok(
                    IcpResult {
                        transform: invert_spec(nbt),
                        residual: nbr,
                        iterations: (done + 1) as usize,
                        status: IcpStatus::MaxIterationsReached,
                    },
                )
            } else {
                icp_loop_spec(refc, tgt, newcum, nbt, nbr, done + 1, (fuel - 1) as nat, tol)
            }
        },
    }
}

/// The whole registration run: from the identity alignment, with the full
/// iteration budget.  An empty reference cloud fails with `EmptyReference`.
pub open spec fn run_icp_spec(
    refc: Seq<Point2D>,
    tgt: Seq<Point2D>,
    max_iter: nat,
    tol: int,
) -> Result<IcpResult, IcpError> {
    if refc.len() == 0 {
        Err(IcpError::EmptyReference)
    } else {
        icp_loop_spec(
            refc,
            tgt,
            identity_spec(),
            identity_spec(),
            0xffffffffffffffffffffffffffffffff,
            0,
            max_iter,
            tol,
        )
    }
}

/// One step of the residual sum over growing prefixes.
proof fn lemma_resid_step(refc: Seq<Point2D>, applied: Seq<Point2D>, m: Seq<usize>, j: int)
    requires
        0 <= j < applied.len(),
        0 <= j < m.len(),
    ensures
        resid_sum(refc, applied.take(j + 1), m.take(j + 1)) == resid_sum(
            refc,
            applied.take(j),
            m.take(j),
        ) + sq_dist(refc[m[j] as int], applied[j]),
{
    let ta = applied.take(j + 1);
    let tm = m.take(j + 1);
    assert(ta.drop_last() =~= applied.take(j));
    assert(tm.drop_last() =~= m.take(j));
    assert(ta.last() == applied[j]);
    assert(tm.last() == m[j]);
}

/// The identity transform carries every point to itself.
proof fn lemma_apply_identity(p: Point2D)
    ensures
        apply_x(identity_spec(), p) == p.x,
        apply_y(identity_spec(), p) == p.y,
{
    lemma_div_exact_multiple(p.x as int, SCALE as int);
    lemma_div_exact_multiple(p.y as int, SCALE as int);
    assert((SCALE as int) * p.x - 0 * p.y == (SCALE as int) * (p.x as int)) by (nonlinear_arith);
    assert(0 * p.x + (SCALE as int) * p.y == (SCALE as int) * (p.y as int)) by (nonlinear_arith);
}

/// The identity transform is its own inverse and its own square.
proof fn lemma_identity_group()
    ensures
        invert_spec(identity_spec()) == identity_spec(),
        compose_spec(identity_spec(), identity_spec()) == identity_spec(),
{
    let t = identity_spec();
    vstd::arithmetic::div_mod::lemma_div_of0(SCALE as int);
    assert(t.c * t.tx + t.s * t.ty == 0) by (nonlinear_arith)
        requires
            t.tx == 0,
            t.ty == 0,
    ;
    assert(t.s * t.tx - t.c * t.ty == 0) by (nonlinear_arith)
        requires
            t.tx == 0,
            t.ty == 0,
    ;
    assert(t.c * t.c - t.s * t.s == (SCALE as int) * (SCALE as int)) by (nonlinear_arith)
        requires
            t.c == SCALE,
            t.s == 0,
    ;
    assert(t.s * t.c + t.c * t.s == 0) by (nonlinear_arith)
        requires
            t.s == 0,
    ;
    assert((SCALE as int) * (SCALE as int) > 0) by (nonlinear_arith)
        requires
            SCALE == 1073741824,
    ;
    crate::transform::lemma_normalize_spec_axis((SCALE as int) * (SCALE as int));
    assert(t.c * t.tx - t.s * t.ty == 0) by (nonlinear_arith)
        requires
            t.tx == 0,
            t.ty == 0,
    ;
    assert(t.s * t.tx + t.c * t.ty == 0) by (nonlinear_arith)
        requires
            t.tx == 0,
            t.ty == 0,
    ;
}

/// A residual over pairs of equal points vanishes.
proof fn lemma_resid_sum_zero(refc: Seq<Point2D>, applied: Seq<Point2D>, m: Seq<usize>)
    requires
        m.len() == applied.len(),
        forall|i: int| 0 <= i < m.len() ==> refc[(#[trigger] m[i]) as int] == applied[i],
    ensures
        resid_sum(refc, applied, m) == 0,
    decreases m.len(),
{
    if m.len() > 0 {
        lemma_resid_sum_zero(refc, applied.drop_last(), m.drop_last());
        let lp = refc[m.last() as int];
        let la = applied.last();
        assert(lp == la);
        assert(sq_dist(lp, la) == 0) by (nonlinear_arith)
            requires
                lp.x == la.x,
                lp.y == la.y,
        ;
    }
}

/// Registering a cloud against an identical copy of itself converges in
/// exactly one iteration, with residual exactly zero and the identity
/// transform.
///
/// Any two distinct points `p[di] != p[dj]` witness that the cloud carries
/// rotation information; a positive tolerance and at least one permitted
/// iteration are assumed.
pub proof fn lemma_icp_identical_clouds(
    p: Seq<Point2D>,
    max_iter: nat,
    tol: int,
    di: int,
    dj: int,
)
    requires
        cloud_in_bounds(p),
        p.len() >= 2,
        0 <= di < p.len(),
        0 <= dj < p.len(),
        p[di] != p[dj],
        max_iter >= 1,
        tol >= 1,
    ensures
        run_icp_spec(p, p, max_iter, tol) == Ok::<IcpResult, IcpError>(
            IcpResult {
                transform: identity_spec(),
                residual: 0,
                iterations: 1,
                status: IcpStatus::Converged,
            },
        ),
{
    let id = identity_spec();
    assert forall|i: int| 0 <= i < p.len() implies apply_x(id, #[trigger] p[i]) == p[i].x
        && apply_y(id, p[i]) == p[i].y by {
        lemma_apply_identity(p[i]);
    }
    assert(cloud_applied_in_bounds(id, p));
    let transformed = apply_cloud_spec(id, p);
    assert(transformed =~= p);
    let m = corr_spec(p, p);
    assert forall|i: int| 0 <= i < p.len() implies refc_at(p, m, i) == p[i] by {
        crate::spatial::lemma_nearest_idx_props(p, p[i]);
        let b = crate::spatial::nearest_idx(p, p[i]);
        assert(sq_dist(p[b], p[i]) <= sq_dist(p[i], p[i]));
        assert(sq_dist(p[i], p[i]) == 0) by (nonlinear_arith);
        crate::geometry::lemma_sq_dist_nonneg(p[b], p[i]);
        crate::geometry::lemma_sq_dist_zero(p[b], p[i]);
        assert(m[i] as int == b);
    }
    let sel = crate::estimate::sel_seq(p, m);
    assert(sel =~= Seq::new(m.len(), |i: int| p[m[i] as int]));
    assert forall|k: int| 0 <= k < m.len() implies (#[trigger] sel[k]) == p[k] by {
        assert(refc_at(p, m, k) == p[k]);
    }
    assert forall|k: int|
        0 <= k < m.len() implies (#[trigger] p[k]).x == sel[k].x + 0 && p[k].y == sel[k].y
        + 0 by {}
    assert(sel[di] == p[di] && sel[dj] == p[dj]);
    crate::estimate::lemma_estimate_matched_translation(p, p, m, 0, 0, di, dj);
    assert(estimate_spec(p, transformed, m) == Ok::<RigidTransform2D, IcpError>(
        RigidTransform2D { c: SCALE, s: 0, tx: 0, ty: 0 },
    ));
    assert(RigidTransform2D { c: SCALE, s: 0, tx: 0, ty: 0 } == id);
    lemma_identity_group();
    assert(trans_bounded(id, TRANS_LIMIT as int));
    let applied = apply_cloud_spec(id, p);
    assert(applied =~= p);
    assert forall|i: int| 0 <= i < m.len() implies p[(#[trigger] m[i]) as int] == applied[i] by {
        assert(refc_at(p, m, i) == p[i]);
    }
    lemma_resid_sum_zero(p, applied, m);
    vstd::arithmetic::div_mod::lemma_div_of0(p.len() as int);
    assert(icp_step_spec(p, p, id) == Ok::<(RigidTransform2D, u128), IcpError>((id, 0u128)));
    assert(max_delta(id, id) == 0);
    assert(icp_loop_spec(p, p, id, id, 0xffffffffffffffffffffffffffffffff, 0, max_iter, tol)
        == Ok::<IcpResult, IcpError>(
        IcpResult {
            transform: invert_spec(id),
            residual: 0,
            iterations: 1,
            status: IcpStatus::Converged,
        },
    ));
}

/// The reference point an entry of a correspondence map selects.
pub open spec fn refc_at(refc: Seq<Point2D>, m: Seq<usize>, i: int) -> Point2D {
    refc[m[i] as int]
}

/// Registering an empty target against a nonempty reference fails with
/// `InsufficientCorrespondences`: the estimator's failure propagates
/// through the loop unmodified.
pub proof fn lemma_icp_empty_target(refc: Seq<Point2D>, max_iter: nat, tol: int)
    requires
        refc.len() >= 1,
        max_iter >= 1,
    ensures
        run_icp_spec(refc, Seq::<Point2D>::empty(), max_iter, tol) == Err::<IcpResult, IcpError>(
            IcpError::InsufficientCorrespondences,
        ),
{
    let tgt = Seq::<Point2D>::empty();
    let id = identity_spec();
    assert(cloud_applied_in_bounds(id, tgt));
    let m = corr_spec(refc, apply_cloud_spec(id, tgt));
    assert(m.len() == 0);
    assert(estimate_spec(refc, apply_cloud_spec(id, tgt), m) == Err::<RigidTransform2D, IcpError>(
        IcpError::InsufficientCorrespondences,
    ));
}

/// Runs iterative closest point registration of `target` against
/// `reference`.
///
/// Returns the transform mapping the reference cloud onto the target
/// cloud, the mean squared pairing residual under it, and the iterations
/// used.  Fails with `EmptyReference` exactly when the reference cloud is
/// empty; failures of the estimator propagate unmodified; reaching the
/// iteration cap is reported as a status, not an error.
#[verifier::rlimit(100)]
pub fn run_icp(reference: &Vec<Point2D>, target: &Vec<Point2D>, config: &IcpConfig) -> (r: Result<
    IcpResult,
    IcpError,
>)
    requires
        cloud_in_bounds(reference@),
        cloud_in_bounds(target@),
        config.max_iterations >= 1,
        config.convergence_tolerance >= 0,
    ensures
        r == run_icp_spec(
            reference@,
            target@,
            config.max_iterations as nat,
            config.convergence_tolerance as int,
        ),
        r == Err::<IcpResult, IcpError>(IcpError::EmptyReference) <==> reference@.len() == 0,
        r matches Ok(res) ==> {
            &&& rot_wf(res.transform)
            &&& trans_bounded(res.transform, crate::numeric::TRANS_HARD_LIMIT as int)
            &&& 1 <= res.iterations <= config.max_iterations
            &&& (res.status == IcpStatus::Converged || res.iterations == config.max_iterations)
        },
{
    if reference.len() == 0 {
        return Err(IcpError::EmptyReference);
    }
    let mut cum = RigidTransform2D::identity();
    let mut best_cum = RigidTransform2D::identity();
    let mut best_res: u128 = 0xffffffffffffffffffffffffffffffff;
    let mut done: usize = 0;
    let tol: i64 = config.convergence_tolerance;
    loop
        invariant
            cloud_in_bounds(reference@),
            cloud_in_bounds(target@),
            reference@.len() >= 1,
            config.max_iterations >= 1,
            tol == config.convergence_tolerance,
            tol >= 0,
            transform_wf(cum),
            transform_wf(best_cum),
            0 <= done < config.max_iterations,
            run_icp_spec(
                reference@,
                target@,
                config.max_iterations as nat,
                config.convergence_tolerance as int,
            ) == icp_loop_spec(
                reference@,
                target@,
                cum,
                best_cum,
                best_res,
                done as nat,
                (config.max_iterations - done) as nat,
                tol as int,
            ),
        decreases config.max_iterations - done,
    {
        let transformed = transformed_cloud(target, &cum);
        let ghost tspec = apply_cloud_spec(cum, target@);
        proof {
            assert(transformed@ =~= tspec);
        }
        let in_range = crate::geometry::cloud_within_bounds(&transformed);
        proof {
            assert(forall|i: int|
                0 <= i < target@.len() ==> ((#[trigger] transformed@[i]).x as int) == apply_x(
                    cum,
                    target@[i],
                ) && (transformed@[i].y as int) == apply_y(cum, target@[i]));
            if in_range {
                assert forall|i: int|
                    0 <= i < target@.len() implies -COORD_LIMIT <= apply_x(
                    cum,
                    #[trigger] target@[i],
                ) <= COORD_LIMIT && -COORD_LIMIT <= apply_y(cum, target@[i]) <= COORD_LIMIT by {
                    assert(point_in_bounds(transformed@[i]));
                }
                assert(cloud_applied_in_bounds(cum, target@));
            } else {
                if cloud_applied_in_bounds(cum, target@) {
                    assert forall|i: int|
                        0 <= i < transformed@.len() implies point_in_bounds(
                        #[trigger] transformed@[i],
                    ) by {
                        assert(-COORD_LIMIT <= apply_x(cum, target@[i]) <= COORD_LIMIT
                            && -COORD_LIMIT <= apply_y(cum, target@[i]) <= COORD_LIMIT);
                    }
                    assert(cloud_in_bounds(transformed@));
                    assert(false);
                }
            }
            assert(in_range == cloud_applied_in_bounds(cum, target@));
        }
        if !in_range {
            return Err(IcpError::DegenerateGeometry);
        }
        let m = match find_correspondences(reference, &transformed) {
            Ok(m) => m,
            Err(e) => {
                return Err(e);
            },
        };
        let fit = match estimate(reference, &transformed, &m) {
            Ok(f) => f,
            Err(e) => {
                return Err(e);
            },
        };
        let incr = invert(&fit);
        let newcum = compose(&incr, &cum);
        if newcum.tx < -TRANS_LIMIT || newcum.tx > TRANS_LIMIT || newcum.ty < -TRANS_LIMIT
            || newcum.ty > TRANS_LIMIT {
            return Err(IcpError::DegenerateGeometry);
        }
        let applied = transformed_cloud(target, &newcum);
        let ghost aspec = apply_cloud_spec(newcum, target@);
        proof {
            assert(applied@ =~= aspec);
            assert forall|j: int|
                0 <= j < applied@.len() implies -0x800000000000 <= (#[trigger] applied@[j]).x
                <= 0x800000000000 && -0x800000000000 <= applied@[j].y <= 0x800000000000 by {
                crate::transform::lemma_apply_bounded(newcum, target@[j]);
                assert((applied@[j].x as int) == apply_x(newcum, target@[j]));
                assert((applied@[j].y as int) == apply_y(newcum, target@[j]));
            }
        }
        let n: usize = target.len();
        let mut sum: u128 = 0;
        let mut k: usize = 0;
        while k < n
            invariant
                0 <= k <= n,
                n <= 1000000000,
                n == target@.len(),
                n == applied@.len(),
                n == m@.len(),
                cloud_in_bounds(reference@),
                reference@.len() >= 1,
                forall|j: int| 0 <= j < m@.len() ==> (#[trigger] m@[j]) < reference@.len(),
                forall|j: int|
                    0 <= j < applied@.len() ==> -0x800000000000 <= (#[trigger] applied@[j]).x
                        <= 0x800000000000 && -0x800000000000 <= applied@[j].y <= 0x800000000000,
                sum as int == resid_sum(reference@, applied@.take(k as int), m@.take(k as int)),
                sum <= (k as u128) * 0x1000000000000000000000000,
            decreases n - k,
        {
            let rp = reference[m[k]];
            let ap = applied[k];
            let dx: i128 = rp.x as i128 - ap.x as i128;
            let dy: i128 = rp.y as i128 - ap.y as i128;
            proof {
                lemma_resid_step(reference@, applied@, m@, k as int);
                assert(point_in_bounds(reference@[m@[k as int] as int]));
                crate::numeric::lemma_abs_mul_bound(dx as int, dx as int, 0x900000000000,
                    0x900000000000,
                );
                crate::numeric::lemma_abs_mul_bound(dy as int, dy as int, 0x900000000000,
                    0x900000000000,
                );
                assert(dx * dx >= 0) by (nonlinear_arith);
                assert(dy * dy >= 0) by (nonlinear_arith);
                assert(0x900000000000 * 0x900000000000 < 0x800000000000000000000000)
                    by (nonlinear_arith);
                assert((k as u128 + 1) * 0x1000000000000000000000000 == (k as u128)
                    * 0x1000000000000000000000000 + 0x1000000000000000000000000)
                    by (nonlinear_arith);
                assert((n as u128) * 0x1000000000000000000000000
                    <= 0x80000000000000000000000000000000) by (nonlinear_arith)
                    requires
                        n <= 1000000000,
                ;
            }
            let term: i128 = dx * dx + dy * dy;
            sum = sum + term as u128;
            k = k + 1;
        }
        proof {
            assert(applied@.take(n as int) =~= applied@);
            assert(m@.take(n as int) =~= m@);
        }
        let residual: u128 = sum / (n as u128);
        let dc: i128 = newcum.c as i128 - cum.c as i128;
        let ds: i128 = newcum.s as i128 - cum.s as i128;
        let dtx: i128 = newcum.tx as i128 - cum.tx as i128;
        let dty: i128 = newcum.ty as i128 - cum.ty as i128;
        let adc: i128 = if dc >= 0 {
            dc
        } else {
            -dc
        };
        let ads: i128 = if ds >= 0 {
            ds
        } else {
            -ds
        };
        let adtx: i128 = if dtx >= 0 {
            dtx
        } else {
            -dtx
        };
        let adty: i128 = if dty >= 0 {
            dty
        } else {
            -dty
        };
        let m1: i128 = if adc >= ads {
            adc
        } else {
            ads
        };
        let m2: i128 = if adtx >= adty {
            adtx
        } else {
            adty
        };
        let delta: i128 = if m1 >= m2 {
            m1
        } else {
            m2
        };
        proof {
            assert(delta as int == max_delta(newcum, cum));
            assert(icp_step_spec(reference@, target@, cum) == Ok::<
                (RigidTransform2D, u128),
                IcpError,
            >((newcum, residual)));
        }
        done = done + 1;
        if residual < best_res {
            best_cum = newcum;
            best_res = residual;
        }
        if delta < tol as i128 {
            let out = invert(&newcum);
            return Ok(
                IcpResult {
                    transform: out,
                    residual,
                    iterations: done,
                    status: IcpStatus::Converged,
                },
            );
        }
        if done == config.max_iterations {
            let out = invert(&best_cum);
            return Ok(
                IcpResult {
                    transform: out,
                    residual: best_res,
                    iterations: done,
                    status: IcpStatus::MaxIterationsReached,
                },
            );
        }
        cum = newcum;
    }
}

} // verus!
