//! A path tracer's decision logic: the axis choice and the bounding volume
//! hierarchy over primitives, boxes whose corners are held as order keys of
//! their coordinates, the depth cap of the integrator and the pixel layout.
//! The floating-point geometry that answers the probes lives with the caller.

pub mod axis;
pub mod key;
pub mod aabb;
pub mod bvh;
pub mod image;
pub mod integrator;
