//! Occupancy indexing of a building interior on an integer lattice.
//!
//! Obstacles are axis-aligned boxes whose corners lie on a lattice of `i64`
//! coordinates. From the boxes that block movement, the crate builds a uniform
//! grid of free and blocked cells and an adaptive octree, under a choice of
//! policy that says when a box blocks a region.

pub mod math;
pub mod scene;
pub mod path;
