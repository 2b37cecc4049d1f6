//! Lattice arithmetic.

pub mod vector;
