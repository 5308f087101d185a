//! End-to-end registration runs and pose-graph accumulation.

use scan_registration::errors::IcpError;
use scan_registration::geometry::Point2D;
use scan_registration::icp::{run_icp, IcpConfig, IcpStatus};
use scan_registration::numeric::SCALE;
use scan_registration::pose::{transform_to_pose, Pose};
use scan_registration::pose_graph::PoseGraph;
use scan_registration::sim::{Dimension, PixelCoord};
use scan_registration::transform::{compose, invert, transformed_cloud, RigidTransform2D};

fn pt(x: f64, y: f64) -> Point2D {
    Point2D {
        x: (x * SCALE as f64).round() as i64,
        y: (y * SCALE as f64).round() as i64,
    }
}

fn ticks(v: f64) -> i64 {
    (v * SCALE as f64).round() as i64
}

fn world(v: i64) -> f64 {
    v as f64 / SCALE as f64
}

fn sine_cloud(n: usize) -> Vec<Point2D> {
    let mut c = Vec::new();
    for i in 0..n {
        let x = -3.0 + 6.0 * i as f64 / (n as f64 - 1.0);
        c.push(pt(x, x.sin()));
    }
    c
}

#[test]
fn icp_identical_clouds_converges_first_iteration() {
    let cloud = sine_cloud(40);
    let config = IcpConfig { max_iterations: 25, convergence_tolerance: 1000 };
    let res = run_icp(&cloud, &cloud, &config).unwrap();
    assert_eq!(res.status, IcpStatus::Converged);
    assert_eq!(res.iterations, 1);
    assert_eq!(res.residual, 0);
    assert_eq!(res.transform.c, SCALE);
    assert_eq!(res.transform.s, 0);
    assert_eq!(res.transform.tx, 0);
    assert_eq!(res.transform.ty, 0);
}

#[test]
fn icp_empty_reference_fails() {
    let reference: Vec<Point2D> = Vec::new();
    let target = sine_cloud(10);
    let config = IcpConfig { max_iterations: 5, convergence_tolerance: 100 };
    assert_eq!(
        run_icp(&reference, &target, &config),
        Err(IcpError::EmptyReference)
    );
}

#[test]
fn icp_empty_target_reports_insufficient_pairs() {
    let reference = sine_cloud(10);
    let target: Vec<Point2D> = Vec::new();
    let config = IcpConfig { max_iterations: 5, convergence_tolerance: 100 };
    assert_eq!(
        run_icp(&reference, &target, &config),
        Err(IcpError::InsufficientCorrespondences)
    );
}

#[test]
fn icp_recovers_rotation_and_translation_end_to_end() {
    // Reference: 100 points of a sine arc.  Target: the same arc rotated
    // by 30 degrees and translated by (2, 0).
    let reference = sine_cloud(100);
    let theta = 30.0_f64.to_radians();
    let (c, s) = (theta.cos(), theta.sin());
    let target: Vec<Point2D> = reference
        .iter()
        .map(|p| {
            let x = world(p.x);
            let y = world(p.y);
            pt(c * x - s * y + 2.0, s * x + c * y)
        })
        .collect();
    let config = IcpConfig { max_iterations: 120, convergence_tolerance: 500 };
    let res = run_icp(&reference, &target, &config).unwrap();
    let pose = transform_to_pose(&res.transform);
    assert!(
        (world(pose.theta) - theta).abs() < 1e-3,
        "heading {} vs {}",
        world(pose.theta),
        theta
    );
    assert!((world(pose.x) - 2.0).abs() < 1e-2, "x {}", world(pose.x));
    assert!(world(pose.y).abs() < 1e-2, "y {}", world(pose.y));
}

#[test]
fn transformed_cloud_applies_exactly() {
    let cloud = vec![pt(1.0, 0.0), pt(0.0, 1.0)];
    let shift = RigidTransform2D { c: SCALE, s: 0, tx: ticks(1.0), ty: ticks(-2.0) };
    let moved = transformed_cloud(&cloud, &shift);
    assert_eq!(moved[0], pt(2.0, -2.0));
    assert_eq!(moved[1], pt(1.0, -1.0));
}

#[test]
fn compose_with_inverse_is_near_identity() {
    let t = RigidTransform2D {
        c: ticks(0.6),
        s: ticks(0.8),
        tx: ticks(1.25),
        ty: ticks(-0.5),
    };
    let inv = invert(&t);
    let round = compose(&t, &inv);
    assert!((round.c - SCALE).abs() <= 4);
    assert!(round.s.abs() <= 4);
    assert!(round.tx.abs() <= 4);
    assert!(round.ty.abs() <= 4);
}

#[test]
fn unseeded_graph_rejects_measurements() {
    let mut graph = PoseGraph::new();
    let pose = Pose { x: ticks(1.0), y: 0, theta: 0 };
    assert_eq!(
        graph.add_measurement(&pose),
        Err(IcpError::UninitializedGraph)
    );
    assert_eq!(graph.nodes.len(), 0);
    assert_eq!(graph.edges.len(), 0);
}

#[test]
fn graph_accumulates_nodes_and_edges() {
    let mut graph = PoseGraph::new();
    graph.reset(&Pose { x: 0, y: 0, theta: 0 });
    assert_eq!(graph.nodes.len(), 1);
    assert_eq!(graph.edges.len(), 0);

    let step = Pose { x: ticks(1.0), y: 0, theta: 0 };
    let id1 = graph.add_measurement(&step).unwrap();
    assert_eq!(id1, 1);
    let id2 = graph.add_measurement(&step).unwrap();
    assert_eq!(id2, 2);
    assert_eq!(graph.nodes.len(), 3);
    assert_eq!(graph.edges.len(), 2);
    assert_eq!(graph.edges[1].source_id, 1);
    assert_eq!(graph.edges[1].target_id, 2);

    // Two unit steps along x accumulate to two units.
    let last = graph.nodes[2];
    assert!((world(last.tx) - 2.0).abs() < 1e-6);
    assert!(world(last.ty).abs() < 1e-6);
    assert!((world(last.c) - 1.0).abs() < 1e-6);
}

#[test]
fn reset_discards_previous_trajectory() {
    let mut graph = PoseGraph::new();
    graph.reset(&Pose { x: 0, y: 0, theta: 0 });
    let step = Pose { x: ticks(0.5), y: ticks(0.5), theta: 0 };
    graph.add_measurement(&step).unwrap();
    graph.reset(&Pose { x: ticks(3.0), y: 0, theta: 0 });
    assert_eq!(graph.nodes.len(), 1);
    assert_eq!(graph.edges.len(), 0);
    assert!((world(graph.nodes[0].tx) - 3.0).abs() < 1e-6);
}

#[test]
fn grid_dimension_contains_cells() {
    let dims = Dimension { width: 4, height: 3 };
    assert!(dims.contains(&PixelCoord { x: 3, y: 2 }));
    assert!(!dims.contains(&PixelCoord { x: 4, y: 2 }));
    assert!(!dims.contains(&PixelCoord { x: 0, y: 3 }));
}
