//! Structural core of a stochastic ray tracer.
//!
//! Scene geometry in the renderer is described by axis-aligned bounding
//! boxes whose coordinates enter this crate through an order-preserving
//! integer encoding, so that every comparison, union and containment test
//! made here agrees with the same test on the raw coordinates.  On top of
//! that model the crate builds and checks the bounding-volume hierarchy,
//! the material handle table, the Perlin permutation tables, the texel
//! addressing of image textures and the work partition of the tiled
//! renderer.  The floating-point shell around this core lives outside the
//! verified library.

pub mod aabb;
pub mod bvh;
pub mod material_handle;
pub mod perlin;
pub mod schedule;
pub mod texel;
mod rng;
