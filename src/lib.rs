//! Discrete core of a path tracer: ordering of reals, bounding boxes, the
//! bounding-volume hierarchy, sphere root selection, path termination and
//! raster order. Real numbers travel through the library as order keys
//! derived from their IEEE-754 bit patterns; the floating-point arithmetic
//! that produces them lives with the caller.

pub mod key;
pub mod aabb;
pub mod hittable;
pub mod hittable_list;
pub mod bvh;
pub mod sphere;
pub mod material;
pub mod path;
pub mod raster;
