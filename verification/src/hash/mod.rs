//! Spatial hashing of occupied grid cells.

pub mod component;
pub mod map;
