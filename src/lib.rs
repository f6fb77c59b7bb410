//! Topology of a finite-volume mesh: validated construction, and per-cell
//! faces, neighbouring cells and points, each computed once on demand.

pub mod connectivity;
pub mod error;
pub mod primitive_mesh;
pub mod quantity;
pub mod topology;

pub use connectivity::{compute_cell_cells, compute_cell_faces, compute_cell_points};
pub use error::MeshError;
pub use primitive_mesh::{PrimitiveMesh, SharedTable};
pub use quantity::Quantity;
