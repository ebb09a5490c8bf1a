//! A two-dimensional point quadtree over integer coordinates.
//!
//! The tree keeps a bounding square that grows by doubling to cover new
//! points, and stores points in leaves that chain coincident coordinates.

pub mod geometry;
pub mod node;
pub mod tree;

pub use geometry::{Bounds, Point, Square};
pub use node::QuadtreeNode;
pub use tree::{next_visit, Quadtree, QuadtreeError, Visit};
