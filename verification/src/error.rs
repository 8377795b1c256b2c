//! The ways in which building a cloud or fitting a plane can fail.

use vstd::prelude::*;

verus! {

#[derive(Debug, Clone, Copy, PartialEq, Eq, Structural)]
pub enum CloudError {
    /// A cloud was asked for from no points at all.
    EmptyInput,
    /// A point has a coordinate beyond `COORD_LIMIT`.
    CoordinateOutOfRange,
    /// A plane was asked for from fewer than three points.
    InsufficientPoints,
    /// Three sampled points lie on one line (or coincide) and determine no
    /// plane. The fitting skips such a sample; it never returns this.
    DegenerateSample,
    /// Not one of the samples determined a plane.
    NoValidPlaneFound,
    /// A point was asked for at an index that the cloud does not have.
    IndexOutOfRange,
}

} // verus!
