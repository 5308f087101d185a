//! Failure taxonomy of the registration core.  Every failure is reported as
//! data; no operation aborts the process on degenerate input.

use vstd::prelude::*;

verus! {

/// A typed failure of a registration operation.
///
/// `DegenerateGeometry` covers both a covariance with no recoverable rotation
/// and fixed-point range exhaustion during iteration: in either case the scan
/// data has left the numeric domain the core can register.
#[derive(Clone, Copy, Debug, PartialEq, Eq, Structural)]
pub enum IcpError {
    /// A nearest-neighbor query or correspondence search against an empty
    /// reference cloud.
    EmptyReference,
    /// Fewer than two paired points were available to the estimator.
    InsufficientCorrespondences,
    /// The paired points carry no usable rotation information, or the
    /// fixed-point range was exhausted while iterating.
    DegenerateGeometry,
    /// A measurement was added to a pose graph holding no seed node.
    UninitializedGraph,
}

} // verus!
