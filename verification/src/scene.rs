//! The geometry that a path meets: a hierarchy of triangles under a sky.

use vstd::prelude::*;
use crate::arithmetic::Arithmetic;
use crate::bvh::traversal::{
    nearer_or_same, traversal_found, traversal_worked, traversed, Workload,
};
use crate::bvh::{depth, Bvh};
use crate::ray::{MIntersection, MRay};
use crate::simd::Mf32;
use crate::triangle::MTriangleHit;

verus! {

/// The distance at which a ray that meets no triangle meets the sky: 1.0e5.
pub const HUGE_DISTANCE: u32 = 0x47c3_5000;

/// The triangles of a scene, if there are any.
pub struct Scene {
    pub bvh: Option<Bvh>,
}

/// Whether `found` is what the rays find in the scene, where `far_away` is
/// what a ray finds that meets no triangle: the sky at a huge distance. Lane by
/// lane `found` is `far_away` or something nearer: what the traversal of the
/// hierarchy of the scene makes of `far_away`, and `far_away` itself in a
/// scene without triangles. The position of `far_away` is the point at the
/// huge distance along the ray, as the arithmetic gives it.
pub open spec fn found_under_sky<A: Arithmetic>(
    arithmetic: &A,
    scene: Scene,
    ray: MRay,
    far_away: MIntersection,
    found: MIntersection,
) -> bool {
    &&& call_ensures(
        A::point_at,
        (arithmetic, &ray, Mf32::splat(HUGE_DISTANCE)),
        far_away.position,
    )
    &&& far_away.distance == Mf32::splat(HUGE_DISTANCE)
    &&& far_away.material == Mf32::splat(0xc000_0000)
    &&& far_away.normal == ray.direction
    &&& forall|k: int| 0 <= k < 8 ==> nearer_or_same(far_away.lane(k), #[trigger] found.lane(k))
    &&& match scene.bvh {
        Some(bvh) => {
            &&& traversal_found(arithmetic, bvh.nodes(), bvh.triangles(), ray, far_away, found)
            &&& exists|tried: Seq<(int, MTriangleHit)>|
                traversed(bvh.triangles(), tried, far_away, found)
        },
        None => found == far_away,
    }
}

impl Scene {
    /// Whether `work` is the work of finding what the rays meet in the scene,
    /// where `far_away` is what a ray finds that meets no triangle: none in a
    /// scene without triangles, else the work of the traversal of the
    /// hierarchy that starts with `far_away`.
    pub open spec fn worked_from<A: Arithmetic>(
        self,
        arithmetic: &A,
        ray: MRay,
        far_away: MIntersection,
        work: Workload,
    ) -> bool {
        match self.bvh {
            Some(bvh) => {
                &&& call_ensures(
                    A::point_at,
                    (arithmetic, &ray, Mf32::splat(HUGE_DISTANCE)),
                    far_away.position,
                )
                &&& far_away.distance == Mf32::splat(HUGE_DISTANCE)
                &&& far_away.material == Mf32::splat(0xc000_0000)
                &&& far_away.normal == ray.direction
                &&& traversal_worked(
                    arithmetic,
                    bvh.nodes(),
                    bvh.triangles(),
                    ray,
                    far_away,
                    work,
                )
                &&& work.num_aabbs >= 2
                &&& work.max_stack <= depth(bvh.nodes()) + 1
            },
            None => work == (Workload { num_aabbs: 0, num_triangles: 0, max_stack: 0 }),
        }
    }

    /// Whether `work` is the work of finding what the rays meet in the scene.
    pub open spec fn worked<A: Arithmetic>(self, arithmetic: &A, ray: MRay, work: Workload)
        -> bool {
        exists|far_away: MIntersection| self.worked_from(arithmetic, ray, far_away, work)
    }

    /// Whether `found` is what the rays find in the scene.
    pub open spec fn found<A: Arithmetic>(self, arithmetic: &A, ray: MRay, found: MIntersection)
        -> bool {
        exists|far_away: MIntersection| found_under_sky(arithmetic, self, ray, far_away, found)
    }

    /// A scene with nothing but sky.
    pub fn empty() -> (r: Scene)
        ensures
            r.bvh is None,
    {
        Scene { bvh: None }
    }

    /// A scene of the triangles in the hierarchy.
    pub fn new(bvh: Bvh) -> (r: Scene)
        ensures
            r.bvh == Some(bvh),
    {
        Scene { bvh: Some(bvh) }
    }

    /// Finds for every lane the nearest triangle on its ray. A lane that meets
    /// none meets the sky, far away: its material is the sky, which is
    /// emissive, and its normal is the direction of the ray.
    pub fn intersect_nearest<A: Arithmetic>(&self, arithmetic: &A, ray: &MRay) -> (r:
        MIntersection)
        ensures
            self.found(arithmetic, *ray, r),
            exists|far_away: MIntersection| found_under_sky(arithmetic, *self, *ray, far_away, r),
    {
        let huge_distance = Mf32::broadcast(HUGE_DISTANCE);
        let far_away = MIntersection {
            position: arithmetic.point_at(ray, huge_distance),
            normal: ray.direction,
            distance: huge_distance,
            material: Mf32::sky(),
        };
        let r = match &self.bvh {
            Some(bvh) => bvh.intersect_nearest(arithmetic, ray, far_away),
            None => far_away,
        };
        assert(found_under_sky(arithmetic, *self, *ray, far_away, r));
        r
    }

    /// Returns how much work it is to find what the rays meet: none in a
    /// scene without triangles.
    pub fn intersect_debug<A: Arithmetic>(&self, arithmetic: &A, ray: &MRay) -> (r: Workload)
        ensures
            self.worked(arithmetic, *ray, r),
            self.bvh is None ==> r == (Workload { num_aabbs: 0, num_triangles: 0, max_stack: 0 }),
            self.bvh is Some ==> r.num_aabbs >= 2,
    {
        match &self.bvh {
            Some(bvh) => {
                let huge_distance = Mf32::broadcast(HUGE_DISTANCE);
                let far_away = MIntersection {
                    position: arithmetic.point_at(ray, huge_distance),
                    normal: ray.direction,
                    distance: huge_distance,
                    material: Mf32::sky(),
                };
                let r = bvh.intersect_debug(arithmetic, ray, far_away);
                assert(self.worked_from(arithmetic, *ray, far_away, r));
                r
            },
            None => {
                let r = Workload { num_aabbs: 0, num_triangles: 0, max_stack: 0 };
                assert(self.worked_from(
                    arithmetic,
                    *ray,
                    (MIntersection {
                        position: ray.origin,
                        normal: ray.direction,
                        distance: Mf32::splat(0),
                        material: Mf32::splat(0),
                    }),
                    r,
                ));
                r
            },
        }
    }
}

} // verus!
