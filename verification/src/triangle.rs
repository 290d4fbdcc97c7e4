//! Triangles, and the lane-wise decision whether a candidate hit replaces the
//! nearest hit found so far.

use vstd::prelude::*;
use crate::aabb::Aabb;
use crate::lane;
use crate::lane::{less, sign_set};
use crate::material::SMaterial;
use crate::ray::MIntersection;
use crate::simd::Mf32;
use crate::simd::{lemma_select_is_merge, lemma_sign_of_bit_ops};
use crate::vector3::{MVector3, SVector3};

verus! {

/// Three vertices and the material of the surface between them.
#[derive(Copy, Clone, Debug, PartialEq, Eq, Structural)]
pub struct Triangle {
    pub v0: SVector3,
    pub v1: SVector3,
    pub v2: SVector3,
    pub material: SMaterial,
}

/// What a packet ray found in the plane of a triangle: per lane the distance
/// along the ray, the point, the face normal, the two edge parameters `u` and
/// `v`, and their sum.
#[derive(Copy, Clone, Debug, PartialEq, Eq, Structural)]
pub struct MTriangleHit {
    pub position: MVector3,
    pub normal: MVector3,
    pub distance: Mf32,
    pub u: Mf32,
    pub v: Mf32,
    pub uv: Mf32,
}

/// Whether a candidate replaces the nearest hit of one lane: it lies in front
/// of the ray, inside the edges (`0 <= u`, `0 <= v`, `u + v <= 1`), and strictly
/// nearer than `best`. A NaN distance never replaces anything.
pub open spec fn replaces(distance: u32, u: u32, v: u32, uv: u32, best: u32) -> bool {
    &&& !less(distance, 0)
    &&& !less(u, 0)
    &&& !less(v, 0)
    &&& !less(lane::ONE, uv)
    &&& less(distance, best)
}

impl MTriangleHit {
    /// Whether the candidate of lane `k` replaces a nearest hit at `best`.
    pub open spec fn replaces(self, k: int, best: u32) -> bool {
        replaces(self.distance.lane(k), self.u.lane(k), self.v.lane(k), self.uv.lane(k), best)
    }

    /// The candidate as an intersection record with the given material.
    pub open spec fn record(self, material: SMaterial) -> MIntersection {
        MIntersection {
            position: self.position,
            normal: self.normal,
            distance: self.distance,
            material: Mf32::splat(material.0),
        }
    }
}

impl Triangle {
    /// The box around the three vertices.
    pub open spec fn aabb(self) -> Aabb {
        Aabb::around_points(seq![self.v0, self.v1, self.v2])
    }

    /// Whether no vertex coordinate is a NaN.
    pub open spec fn is_number(self) -> bool {
        self.v0.is_number() && self.v1.is_number() && self.v2.is_number()
    }

    /// The nearest intersection after a candidate in the plane of this
    /// triangle was tried: a lane is the candidate, with the material of the
    /// triangle, where the candidate replaces its nearest hit, and is kept
    /// elsewhere.
    pub open spec fn updated(self, hit: MTriangleHit, isect: MIntersection) -> MIntersection {
        isect.merge(hit.record(self.material), |k: int| hit.replaces(k, isect.distance.lane(k)))
    }

    pub fn new(v0: SVector3, v1: SVector3, v2: SVector3, material: SMaterial) -> (r: Triangle)
        ensures
            r == (Triangle { v0, v1, v2, material }),
    {
        Triangle { v0, v1, v2, material }
    }

    /// Returns the box around the three vertices.
    pub fn bounding_box(&self) -> (r: Aabb)
        ensures
            r == self.aabb(),
            self.is_number() ==> r.valid() && r.contains_point(self.v0) && r.contains_point(
                self.v1,
            ) && r.contains_point(self.v2),
    {
        let points = [self.v0, self.v1, self.v2];
        assert(points@ =~= seq![self.v0, self.v1, self.v2]);
        proof {
            if self.is_number() {
                crate::aabb::lemma_around_points_contains(points@);
                assert(points@[0] == self.v0);
                assert(points@[1] == self.v1);
                assert(points@[2] == self.v2);
            }
        }
        Aabb::enclose_points(points.as_slice())
    }

    /// Updates the nearest intersection with a candidate in the plane of this
    /// triangle. A lane takes the candidate, and the material of the triangle,
    /// where the candidate replaces its nearest hit; every other lane is kept.
    /// Both sides of the triangle count.
    pub fn intersect(&self, hit: &MTriangleHit, isect: MIntersection) -> (r: MIntersection)
        ensures
            r == self.updated(*hit, isect),
            forall|k: int|
                0 <= k < 8 ==> #[trigger] r.lane(k) == if hit.replaces(k, isect.distance.lane(k)) {
                    hit.record(self.material).lane(k)
                } else {
                    isect.lane(k)
                },
    {
        let zero = Mf32::zero();
        let in_front = hit.distance.geq(zero);
        let u_inside = hit.u.geq(zero);
        let v_inside = hit.v.geq(zero);
        let uv_inside = hit.uv.leq(Mf32::one());
        let further = hit.distance.geq(isect.distance);
        let edges = u_inside & v_inside;
        let inside = edges & uv_inside;
        let valid = in_front & inside;
        let nearer = core::ops::Not::not(further);
        let mask = valid & nearer;
        let candidate = MIntersection {
            position: hit.position,
            normal: hit.normal,
            distance: hit.distance,
            material: Mf32::broadcast_material(self.material),
        };
        let r = isect.pick(&candidate, mask);
        proof {
            let take = |k: int| hit.replaces(k, isect.distance.lane(k));
            assert forall|k: int| 0 <= k < 8 implies sign_set(#[trigger] mask.lane(k)) == take(
                k,
            ) by {
                lemma_sign_of_bit_ops(u_inside.lane(k), v_inside.lane(k));
                lemma_sign_of_bit_ops(edges.lane(k), uv_inside.lane(k));
                lemma_sign_of_bit_ops(in_front.lane(k), inside.lane(k));
                lemma_sign_of_bit_ops(further.lane(k), 0);
                lemma_sign_of_bit_ops(valid.lane(k), nearer.lane(k));
                if k == 0 {
                } else if k == 1 {
                } else if k == 2 {
                } else if k == 3 {
                } else if k == 4 {
                } else if k == 5 {
                } else if k == 6 {
                } else {
                }
            }
            let c = hit.record(self.material);
            assert(candidate == c);
            lemma_select_is_merge(isect.position.x, c.position.x, mask, take);
            lemma_select_is_merge(isect.position.y, c.position.y, mask, take);
            lemma_select_is_merge(isect.position.z, c.position.z, mask, take);
            lemma_select_is_merge(isect.normal.x, c.normal.x, mask, take);
            lemma_select_is_merge(isect.normal.y, c.normal.y, mask, take);
            lemma_select_is_merge(isect.normal.z, c.normal.z, mask, take);
            lemma_select_is_merge(isect.distance, c.distance, mask, take);
            lemma_select_is_merge(isect.material, c.material, mask, take);
            assert(r == self.updated(*hit, isect));
            assert forall|k: int| 0 <= k < 8 implies #[trigger] r.lane(k) == if hit.replaces(
                k,
                isect.distance.lane(k),
            ) {
                hit.record(self.material).lane(k)
            } else {
                isect.lane(k)
            } by {
                if k == 0 {
                } else if k == 1 {
                } else if k == 2 {
                } else if k == 3 {
                } else if k == 4 {
                } else if k == 5 {
                } else if k == 6 {
                } else {
                }
            }
        }
        r
    }
}

} // verus!
