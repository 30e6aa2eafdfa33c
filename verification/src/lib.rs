//! Grows a family tree into a branching surface, as far as that is a matter
//! of whole numbers.
//!
//! The crate holds the combinatorial core of the growth: the family and its
//! validation ([`data`]), the seeded hash and the skeleton of branches and
//! twigs with their pseudo-random draws ([`growth`]), and the vertices and
//! triangles of the surface that wraps the skeleton ([`mesh`]). Every
//! function is verified against its contract; the laws that relate them are
//! stated as proof functions beside them.
//!
//! A vertex is named by where it sits on the tree, not by a position:
//! lengths, angles and radii are left to the caller, who derives them from
//! the draws and places each vertex in space.

pub mod data;
pub mod growth;
pub mod mesh;

pub use data::text::escape_json;
