//! Rank-based uniformisation of sampled noise over a rectangular grid, and the
//! exact cumulative distribution of a weighted sum of independent uniform
//! variables.

pub mod grid;
pub mod sample;
pub mod sort;
pub mod rank;
pub mod uniform;
pub mod skeleton;
pub mod arith;
pub mod subsets;
pub mod formula;
pub mod differences;
pub mod distribution;
pub mod irwin_hall;
