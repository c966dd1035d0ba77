//! Core of an offline path tracer: bounding boxes, the bounding-volume
//! hierarchy and its nearest-hit query, the nearest-hit scan over a flat
//! scene, and the discrete decisions of the primitives, the integrator and
//! the procedural textures.
//!
//! Ray parameters and coordinates are carried as ordered keys (see
//! [`key`]): signed integers whose order is the order of the floating-point
//! values they encode. The floating-point arithmetic itself (vector algebra,
//! quadratic roots, shading) is done by the caller, which hands the results
//! in as keys.
pub mod aabb;
pub mod bvh;
pub mod hittable;
pub mod hittable_list;
pub mod integrator;
pub mod key;
pub mod perlin;
mod random;
pub mod rtweekend;
pub mod texture;
