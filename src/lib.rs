//! Procedural terrain synthesis: seeded gradient-noise tables, diffusion-limited
//! aggregation over a multi-resolution particle grid, and a chunked store of
//! layered material strata.

pub mod heightmaps;
pub mod noise;
pub mod terrain;
