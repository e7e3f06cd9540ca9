//! Integer grids that locate entities at very large scales.

pub mod cell;
pub mod local_origin;
pub mod propagation;
