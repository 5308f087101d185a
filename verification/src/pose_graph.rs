//! Pose graph: the accumulated trajectory of global poses, with one edge
//! linking each new node to its predecessor.

use vstd::prelude::*;
use crate::errors::IcpError;
use crate::numeric::TRANS_LIMIT;
use crate::transform::{
    RigidTransform2D, rot_wf, trans_bounded, transform_wf, compose_spec, compose,
};
use crate::pose::{Pose, pose_wf, pose_to_transform, pose_to_transform_spec};

verus! {

/// Measurement confidence of an edge.  In this core it is a fixed
/// placeholder — the zero matrix — not a computed covariance.
#[derive(Clone, Copy, Debug, PartialEq, Eq, Structural)]
pub struct InformationMatrix {
    pub m00: i64,
    pub m01: i64,
    pub m02: i64,
    pub m10: i64,
    pub m11: i64,
    pub m12: i64,
    pub m20: i64,
    pub m21: i64,
    pub m22: i64,
}

/// The placeholder information matrix.
pub open spec fn zero_information() -> InformationMatrix {
    InformationMatrix {
        m00: 0,
        m01: 0,
        m02: 0,
        m10: 0,
        m11: 0,
        m12: 0,
        m20: 0,
        m21: 0,
        m22: 0,
    }
}

/// An edge between two consecutive trajectory nodes.
#[derive(Clone, Copy, Debug, PartialEq, Eq, Structural)]
pub struct Edge {
    pub source_id: usize,
    pub target_id: usize,
    pub information: InformationMatrix,
}

/// The trajectory: one transform per node, each edge linking a node to its
/// immediate predecessor.  Nodes are appended, never mutated.
pub struct PoseGraph {
    pub nodes: Vec<RigidTransform2D>,
    pub edges: Vec<Edge>,
}

/// Well-formedness of the graph: every node holds a well-formed transform,
/// and the edges are exactly the chain linking consecutive nodes.
pub open spec fn graph_wf(g: PoseGraph) -> bool {
    &&& forall|i: int| 0 <= i < g.nodes@.len() ==> transform_wf(#[trigger] g.nodes@[i])
    &&& g.nodes@.len() == 0 ==> g.edges@.len() == 0
    &&& g.nodes@.len() > 0 ==> g.edges@.len() == g.nodes@.len() - 1
    &&& forall|k: int|
        0 <= k < g.edges@.len() ==> (#[trigger] g.edges@[k]) == Edge {
            source_id: k as usize,
            target_id: (k + 1) as usize,
            information: zero_information(),
        }
}

impl PoseGraph {
    /// A fresh, unseeded graph: no nodes, no edges.  `add_measurement`
    /// fails on it until it is seeded through `reset`.
    pub fn new() -> (g: PoseGraph)
        ensures
            g.nodes@.len() == 0,
            g.edges@.len() == 0,
            graph_wf(g),
    {
        PoseGraph { nodes: Vec::new(), edges: Vec::new() }
    }

    /// Discards all nodes and edges and reseeds the graph with a single
    /// node at the given pose.
    pub fn reset(&mut self, seed: &Pose)
        requires
            pose_wf(*seed),
        ensures
            final (self).nodes@.len() == 1,
            final (self).nodes@[0] == pose_to_transform_spec(*seed),
            final (self).edges@.len() == 0,
            graph_wf(*final (self)),
    {
        let t = pose_to_transform(seed);
        let mut nodes: Vec<RigidTransform2D> = Vec::new();
        nodes.push(t);
        self.nodes = nodes;
        self.edges = Vec::new();
    }

    /// Composes the incremental pose onto the latest node's global pose,
    /// appends the result as a new node, and links it to its predecessor.
    ///
    /// Fails with `UninitializedGraph` exactly when the graph holds no
    /// node, and with `DegenerateGeometry` exactly when the composed pose
    /// leaves the fixed-point translation range; the graph is unchanged on
    /// either failure.  On success returns the new node's id.
    pub fn add_measurement(&mut self, incremental_pose: &Pose) -> (r: Result<usize, IcpError>)
        requires
            pose_wf(*incremental_pose),
            graph_wf(*old(self)),
        ensures
            graph_wf(*final (self)),
            old(self).nodes@.len() == 0 ==> r == Result::<usize, IcpError>::Err(
                IcpError::UninitializedGraph,
            ) && *final (self) == *old(self),
            old(self).nodes@.len() > 0 ==> ({
                let t = compose_spec(
                    pose_to_transform_spec(*incremental_pose),
                    old(self).nodes@.last(),
                );
                if trans_bounded(t, TRANS_LIMIT as int) {
                    &&& r == Result::<usize, IcpError>::Ok(old(self).nodes@.len() as usize)
                    &&& final (self).nodes@ == old(self).nodes@.push(t)
                    &&& final (self).edges@ == old(self).edges@.push(
                        Edge {
                            source_id: (old(self).nodes@.len() - 1) as usize,
                            target_id: old(self).nodes@.len() as usize,
                            information: zero_information(),
                        },
                    )
                } else {
                    r == Result::<usize, IcpError>::Err(IcpError::DegenerateGeometry) && *final (
                    self) == *old(self)
                }
            }),
    {
        if self.nodes.len() == 0 {
            return Err(IcpError::UninitializedGraph);
        }
        let inc = pose_to_transform(incremental_pose);
        let prev_id: usize = self.nodes.len() - 1;
        let prev = self.nodes[prev_id];
        let composed = compose(&inc, &prev);
        if composed.tx < -TRANS_LIMIT || composed.tx > TRANS_LIMIT || composed.ty < -TRANS_LIMIT
            || composed.ty > TRANS_LIMIT {
            return Err(IcpError::DegenerateGeometry);
        }
        let new_id: usize = self.nodes.len();
        self.nodes.push(composed);
        let information = InformationMatrix {
            m00: 0,
            m01: 0,
            m02: 0,
            m10: 0,
            m11: 0,
            m12: 0,
            m20: 0,
            m21: 0,
            m22: 0,
        };
        self.edges.push(Edge { source_id: prev_id, target_id: new_id, information });
        Ok(new_id)
    }
}

} // verus!
