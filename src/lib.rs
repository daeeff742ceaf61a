//! A spatial index over points of the 3-D integer lattice: an octree whose
//! leaves split into eight octants once they hold more points than their
//! capacity, answering box and sphere queries.
//!
//! Coordinates are `i32` lattice values, and every test is exact integer
//! arithmetic: containment and overlap compare coordinates, the sphere test
//! compares squared distances in `i128`, and a box splits at the midpoint of
//! each axis rounded down, so the eight octants cover it without gaps.  A
//! host that works in floating point must map its coordinates onto the
//! lattice (scaling them first where it needs finer resolution); results then
//! follow the lattice values, not the original floats.
pub mod geometry;
pub mod node;
pub mod octree;
pub mod select;

pub use geometry::{Aabb, Point};
pub use node::{capped, Node, MAX_DEPTH};
pub use octree::Octree;
