//! What the library asks of its caller: the arithmetic on single-precision
//! values, and the cost model of the builder.
//!
//! Nothing is promised of what an implementation returns. Whatever it hands
//! back, NaNs included, the library keeps its own promises: indices stay in
//! range, trees stay well formed, a lane is replaced only by a nearer hit.

use vstd::prelude::*;
use crate::aabb::{Aabb, Slabs};
use crate::ray::{MIntersection, MRay};
use crate::simd::{Mf32, Mi32};
use crate::triangle::{MTriangleHit, Triangle};
use crate::vector3::{MVector3, SVector3};

verus! {

/// What a bounce off a surface yields: the ray that continues the path, the
/// factor by which the bounce changes the colour, and what the G-buffer shows
/// of the surface.
#[derive(Copy, Clone, Debug)]
pub struct Bounce {
    pub ray: MRay,
    pub color_mod: MVector3,
    pub tex_coords: (Mf32, Mf32),
    pub fresnel: Mf32,
}

/// A source of random numbers, one stream per tile and frame.
pub trait Random: Sized {
    /// The stream of the tile at `(x, y)` in frame `frame`.
    fn with_seed(x: u32, y: u32, frame: u32) -> Self;

    /// Eight numbers from the unit interval.
    fn sample_unit(&mut self) -> Mf32;

    /// Eight directions on the upper unit hemisphere, weighted by their cosine
    /// with the pole.
    fn sample_hemisphere_vector(&mut self) -> MVector3;
}

/// The eye of the scene.
pub trait Camera {
    /// The rays through the screen coordinates `(x, y)` at time `t` of the frame.
    fn get_ray(&self, x: Mf32, y: Mf32, t: Mf32) -> MRay;
}

/// Estimates the cost of traversing a node, for the builder to compare.
pub trait Heuristic {
    /// Given that a ray has intersected the parent bounding box, estimates the
    /// cost of intersecting the child bounding box and the triangles in it.
    fn aabb_cost(&self, parent_aabb: &Aabb, aabb: &Aabb, num_tris: usize) -> u32;

    /// Estimates the cost of intersecting the given number of triangles.
    fn tris_cost(&self, num_tris: usize) -> u32;
}

/// The arithmetic that builder, traversal and render kernel need. Every value
/// goes in and comes out as its bit pattern.
pub trait Arithmetic {
    /// The mean of the three vertices.
    fn barycenter(&self, triangle: &Triangle) -> SVector3;

    /// The bin, out of `bins` equal ones between `min` and `max`, that `coord`
    /// falls into. The caller clamps the answer to the last bin.
    fn bin_index(&self, bins: usize, min: u32, max: u32, coord: u32) -> usize;

    /// The coordinate at which bin `index` of `bins` between `min` and `max` begins.
    fn split_coordinate(&self, bins: usize, min: u32, max: u32, index: usize) -> u32;

    /// The sum of two values.
    fn sum(&self, a: u32, b: u32) -> u32;

    /// Per axis the distances along the rays to the two planes of the box.
    fn slab_distances(&self, aabb: &Aabb, ray: &MRay) -> Slabs;

    /// Where the rays meet the plane of the triangle.
    fn triangle_hit(&self, triangle: &Triangle, ray: &MRay) -> MTriangleHit;

    /// The points at the given distances along the rays.
    fn point_at(&self, ray: &MRay, distance: Mf32) -> MVector3;

    /// The distances, each shortened by the margin below which two distances
    /// count as one.
    fn less_epsilon(&self, distance: Mf32) -> Mf32;

    /// The screen coordinates of the pixels `(xs, ys)` of a viewport of the
    /// given size, each moved by its jitter, a fraction of one pixel.
    fn screen_coords(
        &self,
        width: u32,
        height: u32,
        xs: Mi32,
        ys: Mi32,
        jitter_x: Mf32,
        jitter_y: Mf32,
    ) -> (Mf32, Mf32);

    /// A diffuse bounce off the surface at `isect` into the direction that
    /// `sample` gives in the frame of the surface normal.
    fn diffuse_bounce(&self, sample: MVector3, isect: &MIntersection) -> Bounce;

    /// The colour times the factor, coordinate by coordinate.
    fn modulate(&self, color: MVector3, factor: MVector3) -> MVector3;

    /// The light that the sky sends against the given direction.
    fn sky_intensity(&self, direction: MVector3) -> MVector3;

    /// The colour that shows how many boxes and triangles a ray has met.
    fn debug_color(&self, num_aabbs: u32, num_triangles: u32) -> MVector3;

    /// The sum of two colours.
    fn accumulate(&self, sum: MVector3, color: MVector3) -> MVector3;

    /// The sum of `num_samples` colours, divided by their number.
    fn average(&self, sum: MVector3, num_samples: u32) -> MVector3;

    /// Red, green and blue of a colour as integers from 0 to 255.
    fn quantize_color(&self, color: MVector3) -> (Mi32, Mi32, Mi32);

    /// The two texture coordinates and the Fresnel factor, each scaled by 255
    /// and rounded to an integer.
    fn quantize_surface(&self, tex_coords: (Mf32, Mf32), fresnel: Mf32) -> (Mi32, Mi32, Mi32);
}

} // verus!
