//! A bounding volume hierarchy over integer-grid geometry, with the scene,
//! interaction, parameter, spectrum-sample and tiling types that surround it.
//!
//! All coordinates are integers in a fixed unit, so every geometric decision
//! made here is exact.

pub mod bvh;
pub mod cuboid;
pub mod geometry;
pub mod interaction;
pub mod light;
pub mod medium;
pub mod paramset;
pub mod primitive;
pub mod ray;
pub mod scene;
pub mod spectrum;
pub mod tiles;
