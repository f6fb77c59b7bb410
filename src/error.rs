//! Structural errors found while validating a mesh's raw arrays.
use vstd::prelude::*;

verus! {

/// Why a set of raw arrays does not describe a mesh. Each variant carries
/// the values that locate the fault.
#[derive(Debug, Clone, Copy, PartialEq, Eq, Structural)]
pub enum MeshError {
    /// `owner` does not hold one entry per face.
    OwnerLengthMismatch { expected: usize, got: usize },
    /// `neighbor` does not hold one entry per internal face.
    NeighbourLengthMismatch { expected: usize, got: usize },
    /// More internal faces are declared than there are faces.
    InternalFaceCountOutOfRange { n_internal_faces: usize, n_faces: usize },
    /// The owner of face `face` is not a cell.
    OwnerIndexOutOfRange { face: usize, cell: usize, n_cells: usize },
    /// The neighbour of internal face `face` is not a cell.
    NeighbourIndexOutOfRange { face: usize, cell: usize, n_cells: usize },
    /// Face `face` names a point that does not exist.
    PointIndexOutOfRange { face: usize, point: usize, n_points: usize },
}

} // verus!
