//! Height-field generators.

pub mod dla;
pub mod perlin;
