//! The surface of the skeleton: vertices, triangles, and what holds of them.

pub mod branch;
pub mod closure;
pub mod generator;
pub mod records;
pub mod validity;

pub use branch::{connect_rings, create_ring, Mesh, Part, Vertex};
pub use generator::{
    connect_rings_adaptive, BranchMeshInfo, MeshGenerator, MeshParams, TrackedMeshGenerator,
};
