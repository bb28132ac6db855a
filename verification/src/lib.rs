//! A sliding-tile puzzle engine: a square grid of numbered tiles and one blank.

pub mod error;
pub mod laws;
pub mod model;
pub mod num_hrd;
pub mod shuffle;
