//! The failures that the library reports to its caller.

use vstd::prelude::*;

verus! {

/// The ways in which an input can break what the library asks of it.
#[derive(Clone, Copy, PartialEq, Eq, Structural, Debug)]
pub enum ContractViolation {
    /// The number of indices is not a multiple of three.
    TriangleCount,
    /// There is no triangle.
    EmptyInput,
    /// The slice thickness is not positive.
    Thickness,
    /// No image can have the size asked for.
    ImageSize,
    /// A coordinate is not a finite number, or lies beyond the range of the
    /// grid.
    Coordinate,
    /// An index names no vertex.
    VertexIndex,
    /// The minimum of a bounding box lies above its maximum.
    InvertedBounds,
    /// The source of the triangles could not be read.
    UnreadableSource,
}

/// A failure of a call as a whole.
#[derive(Clone, Copy, PartialEq, Eq, Structural, Debug)]
pub enum SliceError {
    /// The input breaks what the library asks of it. The call can be
    /// repeated with a corrected input.
    InputContractViolation(ContractViolation),
    /// More room was needed than there is.
    ResourceExhaustion { attempted: u64, available: u64 },
}

} // verus!
