//! Verified core of a scikit-learn compatible toolkit: reproducible k-means seeding,
//! nearest-neighbor selection, search-tree layout, class voting and parameter checks.
//! Floating-point values reach it as `u64` order keys.

pub mod arrays;
pub mod clusters;
pub mod config;
pub mod rng;
pub mod selection;
pub mod tree;
pub mod voting;
