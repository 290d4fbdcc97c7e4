//! Rays and intersections, single and in packets of eight.

use vstd::prelude::*;
use crate::lane;
use crate::lane::less;
use crate::simd::{Mask, Mf32};
use crate::vector3::{MVector3, SVector3};

verus! {

/// A ray from `origin` along the unit vector `direction`.
#[derive(Copy, Clone, Debug, PartialEq, Eq, Structural)]
pub struct Ray {
    pub origin: SVector3,
    pub direction: SVector3,
}

/// Eight rays. A lane whose sign bit is set in `active` has ended its path.
#[derive(Copy, Clone, Debug, PartialEq, Eq, Structural)]
pub struct OctaRay {
    pub origin: MVector3,
    pub direction: MVector3,
    pub active: Mask,
}

/// Where a ray met a surface.
#[derive(Copy, Clone, Debug, PartialEq, Eq, Structural)]
pub struct Intersection {
    /// The position at which the ray intersected the surface.
    pub position: SVector3,
    /// The surface normal at the intersection point.
    pub normal: SVector3,
    /// The distance between the ray origin and the position.
    pub distance: u32,
}

/// Where eight rays met a surface. A lane that met nothing keeps the distance
/// that it started with.
#[derive(Copy, Clone, Debug, PartialEq, Eq, Structural)]
pub struct OctaIntersection {
    pub position: MVector3,
    pub normal: MVector3,
    pub distance: Mf32,
    /// The material that was hit, as its bit pattern.
    pub material: Mf32,
}

pub type MRay = OctaRay;

pub type MIntersection = OctaIntersection;

/// The nearer of two intersections: the first only where it is strictly
/// nearer than the second.
pub open spec fn nearest_of(i1: Option<Intersection>, i2: Option<Intersection>) -> Option<
    Intersection,
> {
    match (i1, i2) {
        (None, None) => None,
        (None, Some(isect)) => Some(isect),
        (Some(isect), None) => Some(isect),
        (Some(isect1), Some(isect2)) => if less(isect1.distance, isect2.distance) {
            Some(isect1)
        } else {
            Some(isect2)
        },
    }
}

/// Returns the nearest of two intersections.
pub fn nearest(i1: Option<Intersection>, i2: Option<Intersection>) -> (r: Option<Intersection>)
    ensures
        r == nearest_of(i1, i2),
{
    match (i1, i2) {
        (None, None) => None,
        (None, Some(isect)) => Some(isect),
        (Some(isect), None) => Some(isect),
        (Some(isect1), Some(isect2)) => if lane::lt(isect1.distance, isect2.distance) {
            Some(isect1)
        } else {
            Some(isect2)
        },
    }
}

impl Ray {
    pub fn new(origin: SVector3, direction: SVector3) -> (r: Ray)
        ensures
            r == (Ray { origin, direction }),
    {
        Ray { origin: origin, direction: direction }
    }
}

/// Written for unary minus on a ray: the same origin, the opposite direction.
impl core::ops::Neg for Ray {
    type Output = Ray;

    fn neg(self) -> (r: Ray) {
        Ray { origin: self.origin, direction: core::ops::Neg::neg(self.direction) }
    }
}

impl vstd::std_specs::ops::NegSpecImpl for Ray {
    open spec fn obeys_neg_spec() -> bool {
        true
    }

    open spec fn neg_req(self) -> bool {
        true
    }

    open spec fn neg_spec(self) -> Ray {
        Ray { origin: self.origin, direction: self.direction.negated() }
    }
}

impl OctaRay {
    /// Ray `k` of the packet.
    pub open spec fn lane(self, k: int) -> Ray {
        Ray { origin: self.origin.lane(k), direction: self.direction.lane(k) }
    }

    /// Eight rays, all of them active.
    pub fn new(origin: MVector3, direction: MVector3) -> (r: OctaRay)
        ensures
            r == (OctaRay { origin, direction, active: Mf32::splat(0) }),
    {
        OctaRay { origin: origin, direction: direction, active: Mf32::zero() }
    }

    /// Builds a packet by applying the function to the numbers 0..7, in order.
    /// The function is called twice for each number: for the origin first, then
    /// for the direction.
    ///
    /// Note: this is essentially a transpose, avoid in hot code.
    pub fn generate<F: Fn(usize) -> Ray>(f: F) -> (r: OctaRay)
        requires
            forall|k: usize| 0 <= k < 8 ==> call_requires(f, (k,)),
        ensures
            r.active == Mf32::splat(0),
            forall|k: usize|
                0 <= k < 8 ==> exists|a: Ray, b: Ray|
                    {
                        &&& call_ensures(f, (k,), a)
                        &&& call_ensures(f, (k,), b)
                        &&& #[trigger] r.lane(k as int) == (Ray {
                            origin: a.origin,
                            direction: b.direction,
                        })
                    },
    {
        let o0 = f(0);
        let o1 = f(1);
        let o2 = f(2);
        let o3 = f(3);
        let o4 = f(4);
        let o5 = f(5);
        let o6 = f(6);
        let o7 = f(7);
        let d0 = f(0);
        let d1 = f(1);
        let d2 = f(2);
        let d3 = f(3);
        let d4 = f(4);
        let d5 = f(5);
        let d6 = f(6);
        let d7 = f(7);
        let r = OctaRay {
            origin: MVector3 {
                x: Mf32(
                    o0.origin.x,
                    o1.origin.x,
                    o2.origin.x,
                    o3.origin.x,
                    o4.origin.x,
                    o5.origin.x,
                    o6.origin.x,
                    o7.origin.x,
                ),
                y: Mf32(
                    o0.origin.y,
                    o1.origin.y,
                    o2.origin.y,
                    o3.origin.y,
                    o4.origin.y,
                    o5.origin.y,
                    o6.origin.y,
                    o7.origin.y,
                ),
                z: Mf32(
                    o0.origin.z,
                    o1.origin.z,
                    o2.origin.z,
                    o3.origin.z,
                    o4.origin.z,
                    o5.origin.z,
                    o6.origin.z,
                    o7.origin.z,
                ),
            },
            direction: MVector3 {
                x: Mf32(
                    d0.direction.x,
                    d1.direction.x,
                    d2.direction.x,
                    d3.direction.x,
                    d4.direction.x,
                    d5.direction.x,
                    d6.direction.x,
                    d7.direction.x,
                ),
                y: Mf32(
                    d0.direction.y,
                    d1.direction.y,
                    d2.direction.y,
                    d3.direction.y,
                    d4.direction.y,
                    d5.direction.y,
                    d6.direction.y,
                    d7.direction.y,
                ),
                z: Mf32(
                    d0.direction.z,
                    d1.direction.z,
                    d2.direction.z,
                    d3.direction.z,
                    d4.direction.z,
                    d5.direction.z,
                    d6.direction.z,
                    d7.direction.z,
                ),
            },
            active: Mf32::zero(),
        };
        proof {
            assert(r.lane(0) == (Ray { origin: o0.origin, direction: d0.direction }));
            assert(r.lane(1) == (Ray { origin: o1.origin, direction: d1.direction }));
            assert(r.lane(2) == (Ray { origin: o2.origin, direction: d2.direction }));
            assert(r.lane(3) == (Ray { origin: o3.origin, direction: d3.direction }));
            assert(r.lane(4) == (Ray { origin: o4.origin, direction: d4.direction }));
            assert(r.lane(5) == (Ray { origin: o5.origin, direction: d5.direction }));
            assert(r.lane(6) == (Ray { origin: o6.origin, direction: d6.direction }));
            assert(r.lane(7) == (Ray { origin: o7.origin, direction: d7.direction }));
        }
        r
    }
}

/// One lane of a packet of intersections.
#[derive(Copy, Clone, Debug, PartialEq, Eq, Structural)]
pub struct LaneIntersection {
    pub position: SVector3,
    pub normal: SVector3,
    pub distance: u32,
    pub material: u32,
}

impl OctaIntersection {
    /// Record `k` of the packet.
    pub open spec fn lane(self, k: int) -> LaneIntersection {
        LaneIntersection {
            position: self.position.lane(k),
            normal: self.normal.lane(k),
            distance: self.distance.lane(k),
            material: self.material.lane(k),
        }
    }

    /// Lane by lane, the record of `other` where the mask is set, else that of `self`.
    pub open spec fn select(self, other: OctaIntersection, mask: Mask) -> OctaIntersection {
        OctaIntersection {
            position: self.position.select(other.position, mask),
            normal: self.normal.select(other.normal, mask),
            distance: self.distance.select(other.distance, mask),
            material: self.material.select(other.material, mask),
        }
    }

    /// Lane by lane, the record of `other` where `take` says so, else that of `self`.
    pub open spec fn merge(self, other: OctaIntersection, take: spec_fn(int) -> bool)
        -> OctaIntersection {
        OctaIntersection {
            position: self.position.merge(other.position, take),
            normal: self.normal.merge(other.normal, take),
            distance: self.distance.merge(other.distance, take),
            material: self.material.merge(other.material, take),
        }
    }

    /// Picks, lane by lane, the record of `self` where the sign bit of the mask
    /// is clear and the record of `other` where it is set.
    pub fn pick(&self, other: &OctaIntersection, mask: Mask) -> (r: OctaIntersection)
        ensures
            r == self.select(*other, mask),
    {
        OctaIntersection {
            position: self.position.pick(other.position, mask),
            normal: self.normal.pick(other.normal, mask),
            distance: self.distance.pick(other.distance, mask),
            material: self.material.pick(other.material, mask),
        }
    }
}

} // verus!
