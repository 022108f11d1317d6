//! Quadtree keys for axis-aligned boxes on a square grid of side 2^29,
//! with the probe protocol that gives each stored box a unique key.

pub mod quadkey;
pub mod layout;
pub mod insert;
