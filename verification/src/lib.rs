//! Stochastic diffusion fill: a raster image grown outward from seed pixels.
//!
//! Each admitted pixel takes the rounded average of its finalized 4-neighbours,
//! perturbed per channel by a bounded random amount and clamped to a byte.

pub mod color;
pub mod engine;
pub mod error;
pub mod frontier;
pub mod grid;
pub mod model;
pub mod random;
pub mod synthesis;
