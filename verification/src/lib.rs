//! A minimal offline ray tracer over fixed-point coordinates: rays are cast
//! into a scene of spheres, the nearest intersection is resolved, and the
//! result is shaded either by its surface normal or by a sky gradient.
//!
//! All geometry is carried in integer fixed-point units of one millionth
//! (`num::SCALE` units equal one whole unit), so every arithmetic step is
//! exact and carries a full functional contract.

pub mod hittable;
pub mod shapes;
pub mod num;
pub mod ray;
pub mod vec3;
