//! Fitting a deformable figure into a polygonal hole on the integer lattice:
//! the data model, the scoring of a candidate placement, and the spatial
//! indexes that answer whether a segment stays inside the hole.

pub mod bits;
pub mod geo_hole_bloom;
pub mod geo_hole_quad_tree;
pub mod geometry;
pub mod problem;
pub mod solver;
pub mod wide;
