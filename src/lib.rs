//! Perfect mazes from uniform spanning trees (Wilson's algorithm).
pub mod maze;
pub mod random;
pub mod tree;
pub mod wilsons;
