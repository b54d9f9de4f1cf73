//! The permutation table shared by every noise evaluation.

pub use crate::heightmaps::perlin::generate_permutation;
