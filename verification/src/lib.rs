//! Procedural maze generation on a fixed-size grid, with machine-checked contracts.

pub mod cell;
pub mod flat2darr;
pub mod maze;
pub mod model;
mod random;
pub mod render;
pub mod scatter;
pub mod search;
pub mod walls;
