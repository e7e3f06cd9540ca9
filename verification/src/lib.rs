//! High-precision spatial bookkeeping for large worlds: integer grid cells, spatial hashing of
//! occupied cells, and partitioning of occupied cells into connected groups.

pub mod camera;
pub mod collections;
pub mod floating_origins;
pub mod grid;
pub mod hash;
pub mod partition;
pub mod precision;
pub mod stationary;
pub mod validation;
