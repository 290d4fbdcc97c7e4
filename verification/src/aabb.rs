//! Axis-aligned bounding boxes: closure over points and boxes, and the fold of
//! slab distances that decides which lanes of a packet ray hit a box.

use vstd::prelude::*;
use crate::lane;
use crate::lane::{less, mask_of, max_of, min_of, order_key, sign_set};
use crate::simd::{Mask, Mf32};
use crate::vector3::SVector3;

verus! {

/// A box given by its minimum corner `origin` and its maximum corner `far`.
#[derive(Copy, Clone, Debug, PartialEq, Eq, Structural)]
pub struct Aabb {
    pub origin: SVector3,
    pub far: SVector3,
}

/// For each axis the distances along a packet ray to the two planes of the box:
/// index 0 is the plane through `origin`, index 1 the plane through `far`.
#[derive(Copy, Clone, Debug, PartialEq, Eq, Structural)]
pub struct Slabs {
    pub x0: Mf32,
    pub x1: Mf32,
    pub y0: Mf32,
    pub y1: Mf32,
    pub z0: Mf32,
    pub z1: Mf32,
}

/// What a packet ray found at a box.
#[derive(Copy, Clone, Debug, PartialEq, Eq, Structural)]
pub struct MAabbIntersection {
    /// Per lane the distance at which the ray enters the last of the three slabs.
    pub distance: Mf32,
    /// Per lane whether the ray hits the box.
    pub mask: Mask,
}

/// Coordinate-wise minimum, `b` on ties and NaNs.
pub open spec fn min3(a: SVector3, b: SVector3) -> SVector3 {
    SVector3 { x: min_of(a.x, b.x), y: min_of(a.y, b.y), z: min_of(a.z, b.z) }
}

/// Coordinate-wise maximum, `b` on ties and NaNs.
pub open spec fn max3(a: SVector3, b: SVector3) -> SVector3 {
    SVector3 { x: max_of(a.x, b.x), y: max_of(a.y, b.y), z: max_of(a.z, b.z) }
}

/// Coordinate-wise `a <= b` in the order of the encoded values.
pub open spec fn le3(a: SVector3, b: SVector3) -> bool {
    &&& order_key(a.x) <= order_key(b.x)
    &&& order_key(a.y) <= order_key(b.y)
    &&& order_key(a.z) <= order_key(b.z)
}

/// The distance at which one ray enters the last slab: the scalar reference
/// for a lane of `Aabb::intersect`.
pub open spec fn slab_near(x0: u32, x1: u32, y0: u32, y1: u32, z0: u32, z1: u32) -> u32 {
    max_of(max_of(min_of(x0, x1), min_of(y0, y1)), min_of(z0, z1))
}

/// The distance at which one ray leaves the first slab.
pub open spec fn slab_far(x0: u32, x1: u32, y0: u32, y1: u32, z0: u32, z1: u32) -> u32 {
    min_of(min_of(max_of(x0, x1), max_of(y0, y1)), max_of(z0, z1))
}

/// Whether one ray hits the box: it enters no later than it leaves, and it does
/// not leave behind its origin. A ray that grazes a slab boundary hits.
pub open spec fn slab_hit(x0: u32, x1: u32, y0: u32, y1: u32, z0: u32, z1: u32) -> bool {
    let near = slab_near(x0, x1, y0, y1, z0, z1);
    let far = slab_far(x0, x1, y0, y1, z0, z1);
    !less(far, near) && !less(far, 0)
}

impl Slabs {
    /// Per lane the distance at which the ray enters the last slab.
    pub open spec fn near(self) -> Mf32 {
        let min = |a: u32, b: u32| min_of(a, b);
        let max = |a: u32, b: u32| max_of(a, b);
        self.x0.zip(self.x1, min).zip(self.y0.zip(self.y1, min), max).zip(
            self.z0.zip(self.z1, min),
            max,
        )
    }

    /// Per lane the distance at which the ray leaves the first slab.
    pub open spec fn far(self) -> Mf32 {
        let min = |a: u32, b: u32| min_of(a, b);
        let max = |a: u32, b: u32| max_of(a, b);
        self.x0.zip(self.x1, max).zip(self.y0.zip(self.y1, max), min).zip(
            self.z0.zip(self.z1, max),
            min,
        )
    }

    /// What the rays find at the box: the entry distance, and the mask of the
    /// lanes that enter no later than they leave and do not leave behind their
    /// origin.
    pub open spec fn folded(self) -> MAabbIntersection {
        let entered = self.near().zip(self.far(), |a: u32, b: u32| mask_of(!less(b, a)));
        let ahead = self.far().zip(Mf32::splat(0), |a: u32, b: u32| mask_of(!less(a, b)));
        MAabbIntersection {
            distance: self.near(),
            mask: entered.zip(ahead, |a: u32, b: u32| a & b),
        }
    }

    /// The six distances of lane `k`: x0, x1, y0, y1, z0, z1.
    pub open spec fn lane(self, k: int) -> (u32, u32, u32, u32, u32, u32) {
        (
            self.x0.lane(k),
            self.x1.lane(k),
            self.y0.lane(k),
            self.y1.lane(k),
            self.z0.lane(k),
            self.z1.lane(k),
        )
    }
}

impl Aabb {
    /// Whether no corner coordinate is a NaN and `origin <= far` on every axis.
    pub open spec fn valid(self) -> bool {
        self.origin.is_number() && self.far.is_number() && le3(self.origin, self.far)
    }

    /// Whether the point lies in the box, boundary included.
    pub open spec fn contains_point(self, p: SVector3) -> bool {
        le3(self.origin, p) && le3(p, self.far)
    }

    /// Whether `other` lies in the box.
    pub open spec fn contains(self, other: Aabb) -> bool {
        le3(self.origin, other.origin) && le3(other.far, self.far)
    }

    /// The box grown to hold the point `p`.
    pub open spec fn with_point(self, p: SVector3) -> Aabb {
        Aabb { origin: min3(p, self.origin), far: max3(p, self.far) }
    }

    /// The box grown to hold the box `other`.
    pub open spec fn with_aabb(self, other: Aabb) -> Aabb {
        Aabb { origin: min3(other.origin, self.origin), far: max3(other.far, self.far) }
    }

    /// The empty box at the origin.
    pub open spec fn empty() -> Aabb {
        Aabb { origin: SVector3 { x: 0, y: 0, z: 0 }, far: SVector3 { x: 0, y: 0, z: 0 } }
    }

    /// The box around a sequence of points: the box of the first point, grown
    /// by each later point in turn; the empty box for no points.
    pub open spec fn around_points(points: Seq<SVector3>) -> Aabb
        decreases points.len(),
    {
        if points.len() == 0 {
            Aabb::empty()
        } else if points.len() == 1 {
            Aabb { origin: points[0], far: points[0] }
        } else {
            Aabb::around_points(points.drop_last()).with_point(points.last())
        }
    }

    /// The box around a sequence of boxes: the first box, grown by each later
    /// box in turn; the empty box for no boxes.
    pub open spec fn around_aabbs(aabbs: Seq<Aabb>) -> Aabb
        decreases aabbs.len(),
    {
        if aabbs.len() == 0 {
            Aabb::empty()
        } else if aabbs.len() == 1 {
            aabbs[0]
        } else {
            Aabb::around_aabbs(aabbs.drop_last()).with_aabb(aabbs.last())
        }
    }

    pub fn new(origin: SVector3, far: SVector3) -> (r: Aabb)
        ensures
            r == (Aabb { origin, far }),
    {
        Aabb { origin, far }
    }

    /// The box with both corners at the origin.
    pub fn zero() -> (r: Aabb)
        ensures
            r == Aabb::empty(),
    {
        Aabb { origin: SVector3::zero(), far: SVector3::zero() }
    }

    /// Returns the smallest box that holds all the points.
    pub fn enclose_points(points: &[SVector3]) -> (r: Aabb)
        ensures
            r == Aabb::around_points(points@),
            (forall|i: int| 0 <= i < points.len() ==> (#[trigger] points[i]).is_number()) ==> forall|
                i: int,
            | 0 <= i < points.len() ==> r.contains_point(#[trigger] points[i]),
    {
        if points.len() == 0 {
            return Aabb::zero();
        }
        proof {
            if forall|i: int| 0 <= i < points.len() ==> (#[trigger] points[i]).is_number() {
                lemma_around_points_contains(points@);
            }
        }
        let mut acc = Aabb { origin: points[0], far: points[0] };
        assert(points@.take(1) =~= seq![points[0]]);
        let mut i: usize = 1;
        while i < points.len()
            invariant
                1 <= i <= points.len(),
                acc == Aabb::around_points(points@.take(i as int)),
            decreases points.len() - i,
        {
            let p = points[i];
            assert(points@.take(i + 1).drop_last() =~= points@.take(i as int));
            acc = Aabb {
                origin: SVector3 {
                    x: lane::min(p.x, acc.origin.x),
                    y: lane::min(p.y, acc.origin.y),
                    z: lane::min(p.z, acc.origin.z),
                },
                far: SVector3 {
                    x: lane::max(p.x, acc.far.x),
                    y: lane::max(p.y, acc.far.y),
                    z: lane::max(p.z, acc.far.z),
                },
            };
            i += 1;
        }
        assert(points@.take(points.len() as int) =~= points@);
        acc
    }

    /// Returns the smallest box that holds all the boxes.
    pub fn enclose_aabbs(aabbs: &[Aabb]) -> (r: Aabb)
        ensures
            r == Aabb::around_aabbs(aabbs@),
            (forall|i: int| 0 <= i < aabbs.len() ==> (#[trigger] aabbs[i]).valid()) ==> forall|
                i: int,
            | 0 <= i < aabbs.len() ==> r.contains(#[trigger] aabbs[i]),
    {
        if aabbs.len() == 0 {
            return Aabb::zero();
        }
        proof {
            if forall|i: int| 0 <= i < aabbs.len() ==> (#[trigger] aabbs[i]).valid() {
                lemma_around_aabbs_contains(aabbs@);
            }
        }
        let mut acc = aabbs[0];
        assert(aabbs@.take(1) =~= seq![aabbs[0]]);
        let mut i: usize = 1;
        while i < aabbs.len()
            invariant
                1 <= i <= aabbs.len(),
                acc == Aabb::around_aabbs(aabbs@.take(i as int)),
            decreases aabbs.len() - i,
        {
            let b = aabbs[i];
            assert(aabbs@.take(i + 1).drop_last() =~= aabbs@.take(i as int));
            acc = Aabb {
                origin: SVector3 {
                    x: lane::min(b.origin.x, acc.origin.x),
                    y: lane::min(b.origin.y, acc.origin.y),
                    z: lane::min(b.origin.z, acc.origin.z),
                },
                far: SVector3 {
                    x: lane::max(b.far.x, acc.far.x),
                    y: lane::max(b.far.y, acc.far.y),
                    z: lane::max(b.far.z, acc.far.z),
                },
            };
            i += 1;
        }
        assert(aabbs@.take(aabbs.len() as int) =~= aabbs@);
        acc
    }

    /// Folds the slab distances of a packet ray into the entry distance and the
    /// hit mask. Lane by lane this is the scalar test: the entry distance is the
    /// largest of the three near distances, and the lane hits where that is not
    /// beyond the smallest far distance and the far distance is not negative.
    pub fn intersect(slabs: &Slabs) -> (r: MAabbIntersection)
        ensures
            r == slabs.folded(),
            forall|k: int|
                0 <= k < 8 ==> {
                    let (x0, x1, y0, y1, z0, z1) = slabs.lane(k);
                    &&& #[trigger] r.distance.lane(k) == slab_near(x0, x1, y0, y1, z0, z1)
                    &&& sign_set(r.mask.lane(k)) == slab_hit(x0, x1, y0, y1, z0, z1)
                },
    {
        let near = slabs.x0.min(slabs.x1).max(slabs.y0.min(slabs.y1)).max(slabs.z0.min(slabs.z1));
        let far = slabs.x0.max(slabs.x1).min(slabs.y0.max(slabs.y1)).min(slabs.z0.max(slabs.z1));
        let entered = near.leq(far);
        let ahead = far.geq(Mf32::zero());
        let mask = entered & ahead;
        proof {
            assert forall|k: int| 0 <= k < 8 implies {
                let (x0, x1, y0, y1, z0, z1) = slabs.lane(k);
                &&& #[trigger] near.lane(k) == slab_near(x0, x1, y0, y1, z0, z1)
                &&& sign_set(mask.lane(k)) == slab_hit(x0, x1, y0, y1, z0, z1)
            } by {
                crate::simd::lemma_sign_of_bit_ops(entered.lane(k), ahead.lane(k));
                if k == 0 {
                } else if k == 1 {
                } else if k == 2 {
                } else if k == 3 {
                } else if k == 4 {
                } else if k == 5 {
                } else if k == 6 {
                } else {
                }
            }
        }
        MAabbIntersection { distance: near, mask }
    }
}

impl MAabbIntersection {
    /// Returns whether any lane hit the box.
    pub fn any(&self) -> (r: bool)
        ensures
            r == self.mask.some_lane(),
    {
        self.mask.any_sign_bit_negative()
    }

    /// Returns whether on every lane the box is entered strictly beyond `distance`.
    pub fn is_further_away_than(&self, distance: Mf32) -> (r: bool)
        ensures
            r == forall|k: int|
                0 <= k < 8 ==> less(#[trigger] distance.lane(k), self.distance.lane(k)),
    {
        let nearer = self.distance.leq(distance);
        let r = !nearer.any_sign_bit_negative();
        proof {
            if r {
                assert forall|k: int| 0 <= k < 8 implies less(
                    #[trigger] distance.lane(k),
                    self.distance.lane(k),
                ) by {
                    assert(!sign_set(nearer.lane(k)));
                }
            } else {
                let k = choose|k: int| 0 <= k < 8 && sign_set(#[trigger] nearer.lane(k));
                assert(!less(distance.lane(k), self.distance.lane(k)));
            }
        }
        r
    }
}

/// A box around points without NaNs is valid and holds every one of them.
pub proof fn lemma_around_points_contains(points: Seq<SVector3>)
    requires
        forall|i: int| 0 <= i < points.len() ==> (#[trigger] points[i]).is_number(),
        points.len() > 0,
    ensures
        Aabb::around_points(points).valid(),
        forall|i: int|
            0 <= i < points.len() ==> Aabb::around_points(points).contains_point(
                #[trigger] points[i],
            ),
    decreases points.len(),
{
    if points.len() > 1 {
        let rest = points.drop_last();
        lemma_around_points_contains(rest);
        assert forall|i: int| 0 <= i < points.len() implies Aabb::around_points(
            points,
        ).contains_point(#[trigger] points[i]) by {
            if i < points.len() - 1 {
                assert(rest[i] == points[i]);
                assert(Aabb::around_points(rest).contains_point(rest[i]));
            }
        }
    }
}

/// A box around valid boxes is valid and holds every one of them.
pub proof fn lemma_around_aabbs_contains(aabbs: Seq<Aabb>)
    requires
        forall|i: int| 0 <= i < aabbs.len() ==> (#[trigger] aabbs[i]).valid(),
        aabbs.len() > 0,
    ensures
        Aabb::around_aabbs(aabbs).valid(),
        forall|i: int|
            0 <= i < aabbs.len() ==> Aabb::around_aabbs(aabbs).contains(#[trigger] aabbs[i]),
    decreases aabbs.len(),
{
    if aabbs.len() > 1 {
        let rest = aabbs.drop_last();
        lemma_around_aabbs_contains(rest);
        assert forall|i: int| 0 <= i < aabbs.len() implies Aabb::around_aabbs(aabbs).contains(
            #[trigger] aabbs[i],
        ) by {
            if i < aabbs.len() - 1 {
                assert(rest[i] == aabbs[i]);
                assert(Aabb::around_aabbs(rest).contains(rest[i]));
            }
        }
    }
}

/// The box around two boxes is the first grown by the second.
pub proof fn lemma_around_pair(a: Aabb, b: Aabb)
    ensures
        Aabb::around_aabbs(seq![a, b]) == a.with_aabb(b),
{
    let pair = seq![a, b];
    assert(pair.drop_last() =~= seq![a]);
    assert(pair.last() == b);
    assert(Aabb::around_aabbs(pair.drop_last()) == a);
}

/// The box around a single box is that box.
pub proof fn lemma_around_single_aabb(a: Aabb)
    ensures
        Aabb::around_aabbs(seq![a]) == a,
{
}

} // verus!
