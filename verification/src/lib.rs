//! Verified core of a 2D scan-registration (ICP) front end.
//!
//! All geometry is carried in signed fixed-point arithmetic: a coordinate of
//! one world unit is `SCALE` raw ticks.  Every public operation states its
//! result exactly, as integer arithmetic over the views of its inputs.

pub mod numeric;
pub mod geometry;
pub mod errors;
pub mod spatial;
pub mod transform;
pub mod estimate;
pub mod pose;
pub mod correspond;
pub mod pose_graph;
pub mod icp;
pub mod sim;
