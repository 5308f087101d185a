//! Pose/transform conversion tests: trigonometric accuracy, angle
//! normalization, and the round trip.

use scan_registration::numeric::SCALE;
use scan_registration::pose::{
    normalize_angle, pose_to_transform, transform_to_pose, Pose, PI_FP, TWO_PI_FP,
};
use scan_registration::transform::RigidTransform2D;

fn ticks(v: f64) -> i64 {
    (v * SCALE as f64).round() as i64
}

fn world(v: i64) -> f64 {
    v as f64 / SCALE as f64
}

#[test]
fn normalize_angle_is_identity_in_range() {
    assert_eq!(normalize_angle(0), 0);
    assert_eq!(normalize_angle(PI_FP), PI_FP);
    assert_eq!(normalize_angle(-PI_FP + 1), -PI_FP + 1);
}

#[test]
fn normalize_angle_wraps_whole_turns() {
    assert_eq!(normalize_angle(PI_FP + 5), PI_FP + 5 - TWO_PI_FP);
    assert_eq!(normalize_angle(-PI_FP), -PI_FP + TWO_PI_FP);
    assert_eq!(normalize_angle(3 * TWO_PI_FP + 7), 7);
    assert_eq!(normalize_angle(-3 * TWO_PI_FP - 7), -7);
}

#[test]
fn pose_to_transform_matches_real_trigonometry() {
    let mut theta = -3.1f64;
    while theta <= 3.1 {
        let p = Pose { x: ticks(0.5), y: ticks(-0.25), theta: ticks(theta) };
        let t = pose_to_transform(&p);
        assert!((world(t.c) - theta.cos()).abs() < 1e-6, "cos at {theta}");
        assert!((world(t.s) - theta.sin()).abs() < 1e-6, "sin at {theta}");
        assert_eq!(t.tx, p.x);
        assert_eq!(t.ty, p.y);
        theta += 0.0937;
    }
}

#[test]
fn transform_to_pose_matches_real_arctangent() {
    let mut theta = -3.1f64;
    while theta <= 3.1 {
        let t = RigidTransform2D {
            c: ticks(theta.cos()),
            s: ticks(theta.sin()),
            tx: ticks(1.5),
            ty: ticks(-2.5),
        };
        let p = transform_to_pose(&t);
        assert!((world(p.theta) - theta).abs() < 1e-6, "atan2 at {theta}");
        assert_eq!(p.x, t.tx);
        assert_eq!(p.y, t.ty);
        theta += 0.0937;
    }
}

#[test]
fn conversion_round_trip_is_tight() {
    // Round trip within a handful of fixed-point ticks (a tick is about
    // 1e-9): transform -> pose -> transform.
    let mut theta = -3.1f64;
    while theta <= 3.1 {
        let t0 = RigidTransform2D {
            c: ticks(theta.cos()),
            s: ticks(theta.sin()),
            tx: ticks(0.75),
            ty: ticks(-0.1),
        };
        let p = transform_to_pose(&t0);
        let t1 = pose_to_transform(&p);
        assert!((t1.c - t0.c).abs() < 40, "c drift at {theta}: {}", t1.c - t0.c);
        assert!((t1.s - t0.s).abs() < 40, "s drift at {theta}: {}", t1.s - t0.s);
        assert_eq!(t1.tx, t0.tx);
        assert_eq!(t1.ty, t0.ty);
        theta += 0.0937;
    }
}

#[test]
fn round_trip_heading_is_normalized() {
    let p0 = Pose { x: 0, y: 0, theta: PI_FP };
    let t = pose_to_transform(&p0);
    let p1 = transform_to_pose(&t);
    assert!(-PI_FP < p1.theta && p1.theta <= PI_FP);
    assert!((p1.theta - PI_FP).abs() < 40 || (p1.theta + PI_FP).abs() < 40);
}
