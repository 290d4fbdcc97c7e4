//! The integer and bit-level core of a packet path tracer.
//!
//! Every single-precision value is carried as its IEEE-754 bit pattern, so that
//! ordering, lane masks, bounding-volume structure, traversal control and pixel
//! packing are exact statements about integers.

pub mod lane;
pub mod simd;
pub mod vector3;
pub mod aabb;
pub mod ray;
pub mod material;
pub mod triangle;
pub mod arithmetic;
pub mod random;
pub mod wavefront;
pub mod interim;
pub mod bvh;
pub mod scene;
pub mod renderer;
