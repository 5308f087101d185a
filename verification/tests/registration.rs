//! Estimator and correspondence tests on concrete clouds.

use scan_registration::errors::IcpError;
use scan_registration::estimate::estimate;
use scan_registration::correspond::find_correspondences;
use scan_registration::geometry::Point2D;
use scan_registration::numeric::SCALE;
use scan_registration::spatial::SpatialIndex;

fn pt(x: f64, y: f64) -> Point2D {
    Point2D {
        x: (x * SCALE as f64).round() as i64,
        y: (y * SCALE as f64).round() as i64,
    }
}

fn to_world(v: i64) -> f64 {
    v as f64 / SCALE as f64
}

fn sample_cloud() -> Vec<Point2D> {
    let mut c = Vec::new();
    for i in 0..12 {
        let x = -2.0 + 0.35 * i as f64;
        c.push(pt(x, (1.7 * x).sin() + 0.2 * x));
    }
    c
}

fn identity_map(n: usize) -> Vec<usize> {
    (0..n).collect()
}

#[test]
fn estimate_self_is_exact_identity() {
    let cloud = sample_cloud();
    let corr = identity_map(cloud.len());
    let t = estimate(&cloud, &cloud, &corr).unwrap();
    assert_eq!(t.c, SCALE);
    assert_eq!(t.s, 0);
    assert_eq!(t.tx, 0);
    assert_eq!(t.ty, 0);
}

#[test]
fn estimate_recovers_pure_translation_exactly() {
    let cloud = sample_cloud();
    let dx = (0.75 * SCALE as f64) as i64;
    let dy = -(1.25 * SCALE as f64) as i64;
    let moved: Vec<Point2D> = cloud
        .iter()
        .map(|p| Point2D { x: p.x + dx, y: p.y + dy })
        .collect();
    let corr = identity_map(cloud.len());
    let t = estimate(&cloud, &moved, &corr).unwrap();
    assert_eq!(t.c, SCALE);
    assert_eq!(t.s, 0);
    assert_eq!(t.tx, dx);
    assert_eq!(t.ty, dy);
}

#[test]
fn estimate_recovers_rotation_and_translation() {
    let cloud = sample_cloud();
    let theta = 30.0_f64.to_radians();
    let (c, s) = (theta.cos(), theta.sin());
    let (tx, ty) = (2.0, 0.5);
    let moved: Vec<Point2D> = cloud
        .iter()
        .map(|p| {
            let x = to_world(p.x);
            let y = to_world(p.y);
            pt(c * x - s * y + tx, s * x + c * y + ty)
        })
        .collect();
    let corr = identity_map(cloud.len());
    let t = estimate(&cloud, &moved, &corr).unwrap();
    assert!((to_world(t.c) - c).abs() < 1e-6);
    assert!((to_world(t.s) - s).abs() < 1e-6);
    assert!((to_world(t.tx) - tx).abs() < 1e-6);
    assert!((to_world(t.ty) - ty).abs() < 1e-6);
}

#[test]
fn estimate_never_returns_a_reflection() {
    // A mirrored target would make a naive least-squares fit pick a
    // reflection; the estimator must still return a proper rotation with
    // determinant as close to +1 as the representation holds.
    let cloud = sample_cloud();
    let mirrored: Vec<Point2D> = cloud.iter().map(|p| Point2D { x: p.x, y: -p.y }).collect();
    let corr = identity_map(cloud.len());
    let t = estimate(&cloud, &mirrored, &corr).unwrap();
    let norm = t.c as i128 * t.c as i128 + t.s as i128 * t.s as i128;
    let s = SCALE as i128;
    assert!(norm >= s * s - 4 * s);
    assert!(norm <= s * s + 1);
}

#[test]
fn estimate_needs_two_pairs() {
    let cloud = sample_cloud();
    let one = vec![pt(0.5, 0.5)];
    let corr = vec![0usize];
    assert_eq!(
        estimate(&cloud, &one, &corr),
        Err(IcpError::InsufficientCorrespondences)
    );
    let empty_corr: Vec<usize> = Vec::new();
    let empty_cloud: Vec<Point2D> = Vec::new();
    assert_eq!(
        estimate(&cloud, &empty_cloud, &empty_corr),
        Err(IcpError::InsufficientCorrespondences)
    );
}

#[test]
fn estimate_reports_degenerate_geometry() {
    // Every pair is the same point: the centered covariance is all zero.
    let cloud = vec![pt(1.0, 1.0), pt(1.0, 1.0), pt(1.0, 1.0)];
    let corr = identity_map(cloud.len());
    assert_eq!(
        estimate(&cloud, &cloud, &corr),
        Err(IcpError::DegenerateGeometry)
    );
}

#[test]
fn correspondences_cover_target_with_valid_indices() {
    let reference = sample_cloud();
    let target = vec![pt(-3.0, 2.0), pt(0.1, 0.1), pt(4.0, -4.0), pt(0.0, 0.0)];
    let m = find_correspondences(&reference, &target).unwrap();
    assert_eq!(m.len(), target.len());
    for &i in m.iter() {
        assert!(i < reference.len());
    }
}

#[test]
fn correspondences_pick_nearest_point() {
    let reference = vec![pt(0.0, 0.0), pt(1.0, 0.0), pt(2.0, 0.0)];
    let target = vec![pt(1.1, 0.0), pt(1.9, 0.1), pt(-5.0, 0.0)];
    let m = find_correspondences(&reference, &target).unwrap();
    assert_eq!(m, vec![1, 2, 0]);
}

#[test]
fn correspondences_tie_goes_to_first_inserted() {
    let reference = vec![pt(1.0, 1.0), pt(1.0, 1.0), pt(3.0, 3.0)];
    let target = vec![pt(1.0, 1.0), pt(2.0, 2.0)];
    let m = find_correspondences(&reference, &target).unwrap();
    // Both duplicates are equally near; the first-inserted wins.  The
    // midpoint is equidistant from the duplicate pair and the far point;
    // the first-inserted still wins.
    assert_eq!(m, vec![0, 0]);
}

#[test]
fn correspondences_fail_on_empty_reference() {
    let reference: Vec<Point2D> = Vec::new();
    let target = vec![pt(0.0, 0.0)];
    assert_eq!(
        find_correspondences(&reference, &target),
        Err(IcpError::EmptyReference)
    );
    let no_target: Vec<Point2D> = Vec::new();
    assert_eq!(
        find_correspondences(&reference, &no_target),
        Err(IcpError::EmptyReference)
    );
}

#[test]
fn correspondences_of_empty_target_are_empty() {
    let reference = sample_cloud();
    let target: Vec<Point2D> = Vec::new();
    let m = find_correspondences(&reference, &target).unwrap();
    assert!(m.is_empty());
}

#[test]
fn spatial_index_reports_nearest_with_distance() {
    let reference = vec![pt(0.0, 0.0), pt(3.0, 0.0)];
    let index = SpatialIndex::build(&reference);
    let (i, d) = index.nearest(&pt(2.0, 0.0)).unwrap();
    assert_eq!(i, 1);
    // Exact squared distance of one world unit, in ticks squared.
    assert_eq!(d, (SCALE as u128) * (SCALE as u128));
}

#[test]
fn spatial_index_empty_fails_every_query() {
    let reference: Vec<Point2D> = Vec::new();
    let index = SpatialIndex::build(&reference);
    assert_eq!(index.nearest(&pt(0.0, 0.0)), Err(IcpError::EmptyReference));
    assert_eq!(index.nearest(&pt(5.0, 5.0)), Err(IcpError::EmptyReference));
}
