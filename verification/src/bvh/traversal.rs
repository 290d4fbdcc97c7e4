//! How a packet of rays walks a hierarchy.

use vstd::prelude::*;
use crate::aabb::{Aabb, MAabbIntersection, Slabs};
use crate::arithmetic::Arithmetic;
use crate::bvh::{arranged, depth, height, slot_ok, Bvh, BvhNode};
use crate::lane::{less, mask_of};
use crate::ray::{LaneIntersection, MIntersection, MRay};
use crate::simd::{Mask, Mf32};
use crate::triangle::{MTriangleHit, Triangle};

verus! {

/// The number of nodes at or below node `i`.
pub open spec fn weight(nodes: Seq<BvhNode>, i: int) -> nat
    decreases nodes.len() - i,
{
    if 0 <= i < nodes.len() {
        let node = nodes[i];
        if node.len == 0 && i < node.index && node.index + 1 < nodes.len() {
            1 + weight(nodes, node.index as int) + weight(nodes, node.index + 1)
        } else {
            1
        }
    } else {
        0
    }
}

/// The number of nodes at or below the nodes on the stack of a traversal.
pub open spec fn pending(nodes: Seq<BvhNode>, stack: Seq<(MAabbIntersection, usize)>) -> nat
    decreases stack.len(),
{
    if stack.len() == 0 {
        0
    } else {
        pending(nodes, stack.drop_last()) + weight(nodes, stack.last().1 as int)
    }
}

/// How much work a traversal was.
#[derive(Copy, Clone, Debug, PartialEq, Eq, Structural)]
pub struct Workload {
    /// The number of boxes that were tested; it stops at the largest number
    /// that it can hold.
    pub num_aabbs: u32,
    /// The number of triangles that were tested; it stops likewise.
    pub num_triangles: u32,
    /// The most nodes that waited on the stack at one time.
    pub max_stack: usize,
}

/// Whether the nodes on the stack lie the lower in the hierarchy the higher
/// they lie on the stack: the height of a node and its place on the stack
/// come to no more than the depth of the hierarchy and one.
pub open spec fn staggered(nodes: Seq<BvhNode>, stack: Seq<(MAabbIntersection, usize)>) -> bool {
    forall|p: int|
        0 <= p < stack.len() ==> height(nodes, (#[trigger] stack[p]).1 as int) + p <= depth(nodes)
            + 1
}

/// Whether `after` is the stack `before` once the box of node `index` was
/// tested with the slab distances `slabs`, which are what the arithmetic gives
/// for the box and the rays: the node lies on top with what the rays found at
/// its box where a lane hits the box, and the stack is as it was where none does.
pub open spec fn pushed_if_hit<A: Arithmetic>(
    arithmetic: &A,
    aabb: Aabb,
    ray: MRay,
    slabs: Slabs,
    before: Seq<(MAabbIntersection, usize)>,
    after: Seq<(MAabbIntersection, usize)>,
    index: usize,
) -> bool {
    &&& call_ensures(A::slab_distances, (arithmetic, &aabb, &ray), slabs)
    &&& after == if slabs.folded().mask.some_lane() {
        before.push((slabs.folded(), index))
    } else {
        before
    }
}

/// Whether the box at `entry` is entered, on every lane, strictly beyond the
/// nearest hit at `best`.
pub open spec fn further(entry: Mf32, best: Mf32) -> bool {
    forall|k: int| 0 <= k < 8 ==> less(#[trigger] best.lane(k), entry.lane(k))
}

/// Whether `after` is the stack `before` once the box of node `index` was
/// tested with the slab distances that the arithmetic gives.
pub open spec fn pushed<A: Arithmetic>(
    arithmetic: &A,
    aabb: Aabb,
    ray: MRay,
    before: Seq<(MAabbIntersection, usize)>,
    after: Seq<(MAabbIntersection, usize)>,
    index: usize,
) -> bool {
    exists|slabs: Slabs| pushed_if_hit(arithmetic, aabb, ray, slabs, before, after, index)
}

/// Whether `both` is the stack `before` once the boxes of the siblings
/// `first` and `first + 1` were tested, in this order, and `one` the stack in
/// between.
pub open spec fn pair_pushed<A: Arithmetic>(
    arithmetic: &A,
    nodes: Seq<BvhNode>,
    ray: MRay,
    first: int,
    before: Seq<(MAabbIntersection, usize)>,
    one: Seq<(MAabbIntersection, usize)>,
    both: Seq<(MAabbIntersection, usize)>,
) -> bool {
    &&& pushed(arithmetic, nodes[first].aabb, ray, before, one, first as usize)
    &&& pushed(arithmetic, nodes[first + 1].aabb, ray, one, both, (first + 1) as usize)
}

/// Whether `hits` are what the arithmetic gives for the rays and the
/// triangles from `first` on, one after the other.
pub open spec fn hits_given<A: Arithmetic>(
    arithmetic: &A,
    triangles: Seq<Triangle>,
    ray: MRay,
    first: int,
    hits: Seq<MTriangleHit>,
) -> bool {
    forall|t: int|
        0 <= t < hits.len() ==> call_ensures(
            A::triangle_hit,
            (arithmetic, &triangles[first + t], &ray),
            #[trigger] hits[t],
        )
}

/// What is left of `isect` after the triangles from `first` on were tried in
/// order, each with its hit.
pub open spec fn leaf_tried(
    triangles: Seq<Triangle>,
    first: int,
    hits: Seq<MTriangleHit>,
    isect: MIntersection,
) -> MIntersection
    decreases hits.len(),
{
    if hits.len() == 0 {
        isect
    } else {
        triangles[first + hits.len() - 1].updated(
            hits.last(),
            leaf_tried(triangles, first, hits.drop_last(), isect),
        )
    }
}

/// The count `n` and `more`, or the largest number that a count can hold.
pub open spec fn counted(n: u32, more: u32) -> u32 {
    if n <= u32::MAX - more {
        (n + more) as u32
    } else {
        u32::MAX
    }
}

/// Whether `r` are the nearest hits and the work once the nodes on the stack
/// were walked in at most `steps` steps, with `isect` the nearest hits and
/// `work` the work so far. A step takes the node on top of the stack. A node
/// whose box is entered beyond the nearest hits of all lanes is skipped. Of an
/// internal node the boxes of the two children are tested, and each child is
/// pushed where a lane hits its box. Of a leaf the triangles are tried in
/// order, each with the hit that the arithmetic gives for it.
pub open spec fn walked<A: Arithmetic>(
    arithmetic: &A,
    nodes: Seq<BvhNode>,
    triangles: Seq<Triangle>,
    ray: MRay,
    stack: Seq<(MAabbIntersection, usize)>,
    isect: MIntersection,
    work: Workload,
    steps: nat,
    r: (MIntersection, Workload),
) -> bool
    decreases steps,
{
    if stack.len() == 0 {
        r == (isect, work)
    } else if steps == 0 {
        false
    } else {
        let top = stack.last();
        let rest = stack.drop_last();
        let node = nodes[top.1 as int];
        if further(top.0.distance, isect.distance) {
            walked(arithmetic, nodes, triangles, ray, rest, isect, work, (steps - 1) as nat, r)
        } else if node.len == 0 {
            exists|one: Seq<(MAabbIntersection, usize)>, both: Seq<(MAabbIntersection, usize)>|
                #[trigger] pair_pushed(arithmetic, nodes, ray, node.index as int, rest, one, both)
                    && walked(
                    arithmetic,
                    nodes,
                    triangles,
                    ray,
                    both,
                    isect,
                    (Workload {
                        num_aabbs: counted(work.num_aabbs, 2),
                        max_stack: if both.len() > work.max_stack {
                            both.len() as usize
                        } else {
                            work.max_stack
                        },
                        ..work
                    }),
                    (steps - 1) as nat,
                    r,
                )
        } else {
            exists|hits: Seq<MTriangleHit>|
                #[trigger] hits_given(arithmetic, triangles, ray, node.index as int, hits)
                    && hits.len() == node.len && walked(
                    arithmetic,
                    nodes,
                    triangles,
                    ray,
                    rest,
                    leaf_tried(triangles, node.index as int, hits, isect),
                    (Workload { num_triangles: counted(work.num_triangles, node.len), ..work }),
                    (steps - 1) as nat,
                    r,
                )
        }
    }
}

/// Whether `r` are the nearest hits and the work of a traversal that starts
/// with the nearest hits `start`, where `one` and `both` are the stack after
/// the box of the first root was tested and after the boxes of both were, and
/// the walk from there takes at most `steps` steps.
pub open spec fn traversal_with<A: Arithmetic>(
    arithmetic: &A,
    nodes: Seq<BvhNode>,
    triangles: Seq<Triangle>,
    ray: MRay,
    start: MIntersection,
    r: (MIntersection, Workload),
    one: Seq<(MAabbIntersection, usize)>,
    both: Seq<(MAabbIntersection, usize)>,
    steps: nat,
) -> bool {
    &&& pair_pushed(arithmetic, nodes, ray, 0, Seq::empty(), one, both)
    &&& walked(
        arithmetic,
        nodes,
        triangles,
        ray,
        both,
        start,
        (Workload { num_aabbs: 2, num_triangles: 0, max_stack: both.len() as usize }),
        steps,
        r,
    )
}

/// Whether `r` are the nearest hits and the work of a traversal of the
/// hierarchy with the rays that starts with the nearest hits `start`: the
/// boxes of the two roots are tested, and the nodes are walked from there
/// until none is left. The work is the number of boxes and of triangles that
/// were tested, and the most nodes that the stack held.
pub open spec fn traversal<A: Arithmetic>(
    arithmetic: &A,
    nodes: Seq<BvhNode>,
    triangles: Seq<Triangle>,
    ray: MRay,
    start: MIntersection,
    r: (MIntersection, Workload),
) -> bool {
    exists|one: Seq<(MAabbIntersection, usize)>, both: Seq<(MAabbIntersection, usize)>, steps: nat|
        traversal_with(arithmetic, nodes, triangles, ray, start, r, one, both, steps)
}

/// Whether `found` are the nearest hits of a traversal of the hierarchy.
pub open spec fn traversal_found<A: Arithmetic>(
    arithmetic: &A,
    nodes: Seq<BvhNode>,
    triangles: Seq<Triangle>,
    ray: MRay,
    start: MIntersection,
    found: MIntersection,
) -> bool {
    exists|work: Workload| traversal(arithmetic, nodes, triangles, ray, start, (found, work))
}

/// Whether `work` is the work of a traversal of the hierarchy.
pub open spec fn traversal_worked<A: Arithmetic>(
    arithmetic: &A,
    nodes: Seq<BvhNode>,
    triangles: Seq<Triangle>,
    ray: MRay,
    start: MIntersection,
    work: Workload,
) -> bool {
    exists|found: MIntersection| traversal(arithmetic, nodes, triangles, ray, start, (found, work))
}

/// Whether a lane after a traversal is the lane before it, or a nearer one.
pub open spec fn nearer_or_same(before: LaneIntersection, after: LaneIntersection) -> bool {
    after == before || less(after.distance, before.distance)
}

/// What is left of `isect` after the triangles `tried[s].0` were tried in
/// order, each with the hit `tried[s].1` in its plane.
pub open spec fn after_trying(
    triangles: Seq<Triangle>,
    tried: Seq<(int, MTriangleHit)>,
    isect: MIntersection,
) -> MIntersection
    decreases tried.len(),
{
    if tried.len() == 0 {
        isect
    } else {
        triangles[tried.last().0].updated(
            tried.last().1,
            after_trying(triangles, tried.drop_last(), isect),
        )
    }
}

/// Whether `found` is what a traversal makes of `isect`: it tries triangles of
/// the hierarchy, one after the other, and nothing else changes a lane.
pub open spec fn traversed(
    triangles: Seq<Triangle>,
    tried: Seq<(int, MTriangleHit)>,
    isect: MIntersection,
    found: MIntersection,
) -> bool {
    &&& forall|s: int| 0 <= s < tried.len() ==> 0 <= (#[trigger] tried[s]).0 < triangles.len()
    &&& found == after_trying(triangles, tried, isect)
}

/// The mask of the lanes that found something nearer than the threshold.
pub open spec fn hits(distance: Mf32, threshold: Mf32) -> Mask {
    distance.zip(threshold, |d: u32, t: u32| mask_of(less(d, t)))
}

/// Whether `mask` tells which lanes of a traversal found something: the
/// traversal started at `start`, with nothing nearer than `max_dist`, and
/// found `found`; a lane of the mask is set where `found` is nearer than
/// `threshold`, which is `max_dist` less the margin as the arithmetic gives it.
pub open spec fn found_any<A: Arithmetic>(
    arithmetic: &A,
    nodes: Seq<BvhNode>,
    triangles: Seq<Triangle>,
    ray: MRay,
    max_dist: Mf32,
    start: MIntersection,
    found: MIntersection,
    threshold: Mf32,
    mask: Mask,
) -> bool {
    &&& call_ensures(A::point_at, (arithmetic, &ray, max_dist), start.position)
    &&& start.distance == max_dist
    &&& start.normal == ray.direction
    &&& start.material == Mf32::splat(0)
    &&& traversal_found(arithmetic, nodes, triangles, ray, start, found)
    &&& call_ensures(A::less_epsilon, (arithmetic, max_dist), threshold)
    &&& mask == hits(found.distance, threshold)
}

impl Bvh {
    /// Intersects the box of one node and pushes the node where a lane hits:
    /// the slab distances are those that the arithmetic gives for the box of
    /// the node and the rays, and what is pushed is their fold.
    fn push_if_hit<A: Arithmetic>(
        &self,
        arithmetic: &A,
        ray: &MRay,
        stack: &mut Vec<(MAabbIntersection, usize)>,
        index: usize,
    )
        requires
            index < self.nodes().len(),
        ensures
            pushed(
                arithmetic,
                self.nodes()[index as int].aabb,
                *ray,
                old(stack)@,
                final(stack)@,
                index,
            ),
            final(stack)@ == old(stack)@ || exists|found: MAabbIntersection|
                final(stack)@ == old(stack)@.push((found, index)),
    {
        let slabs = arithmetic.slab_distances(&self.nodes[index].aabb, ray);
        let found = Aabb::intersect(&slabs);
        if found.any() {
            stack.push((found, index));
        }
        assert(pushed_if_hit(
            arithmetic,
            self.nodes()[index as int].aabb,
            *ray,
            slabs,
            old(stack)@,
            stack@,
            index,
        ));
    }

    /// Walks the hierarchy with a packet of rays. Returns the nearest hits and
    /// how much work it was to find them. The stack never holds more nodes
    /// than the hierarchy is deep, and one.
    #[verifier::rlimit(50)]
    fn traverse<A: Arithmetic>(&self, arithmetic: &A, ray: &MRay, start: MIntersection) -> (r: (
        MIntersection,
        Workload,
    ))
        ensures
            traversal(arithmetic, self.nodes(), self.triangles(), *ray, start, r),
            forall|k: int| 0 <= k < 8 ==> nearer_or_same(start.lane(k), #[trigger] r.0.lane(k)),
            exists|tried: Seq<(int, MTriangleHit)>| traversed(self.triangles(), tried, start, r.0),
            r.1.num_aabbs >= 2,
            r.1.max_stack <= depth(self.nodes()) + 1,
    {
        proof {
            use_type_invariant(self);
        }
        let mut isect = start;
        let ghost mut tried: Seq<(int, MTriangleHit)> = Seq::empty();
        let mut num_aabbs: u32 = 2;
        let mut num_triangles: u32 = 0;

        // Keep a stack of nodes that still need to be intersected.
        let mut stack: Vec<(MAabbIntersection, usize)> = Vec::with_capacity(10);
        self.push_if_hit(arithmetic, ray, &mut stack, 0);
        let ghost one_root = stack@;
        self.push_if_hit(arithmetic, ray, &mut stack, 1);
        let ghost both_roots = stack@;
        let mut max_stack = stack.len();
        assert(height(self.nodes@, 0) >= 1 && height(self.nodes@, 1) >= 1);
        proof {
            assert(pair_pushed(
                arithmetic,
                self.nodes@,
                *ray,
                0,
                Seq::empty(),
                one_root,
                both_roots,
            ));
            assert forall|n: nat, r: (MIntersection, Workload)| #[trigger]
                walked(
                    arithmetic,
                    self.nodes@,
                    self.triangles@,
                    *ray,
                    both_roots,
                    start,
                    (Workload { num_aabbs, num_triangles, max_stack }),
                    n,
                    r,
                ) implies traversal(arithmetic, self.nodes@, self.triangles@, *ray, start, r) by {
                assert(traversal_with(
                    arithmetic,
                    self.nodes@,
                    self.triangles@,
                    *ray,
                    start,
                    r,
                    one_root,
                    both_roots,
                    n,
                ));
            }
        }

        while stack.len() > 0
            invariant
                arranged(self.nodes@, self.triangles@),
                forall|s: int| 0 <= s < stack.len() ==> (#[trigger] stack[s]).1 < self.nodes.len(),
                forall|k: int|
                    0 <= k < 8 ==> nearer_or_same(start.lane(k), #[trigger] isect.lane(k)),
                traversed(self.triangles@, tried, start, isect),
                num_aabbs >= 2,
                staggered(self.nodes@, stack@),
                stack.len() <= max_stack <= depth(self.nodes@) + 1,
                // What the walk from here finds, the traversal finds.
                forall|n: nat, r: (MIntersection, Workload)| #[trigger]
                    walked(
                        arithmetic,
                        self.nodes@,
                        self.triangles@,
                        *ray,
                        stack@,
                        isect,
                        (Workload { num_aabbs, num_triangles, max_stack }),
                        n,
                        r,
                    ) ==> traversal(arithmetic, self.nodes@, self.triangles@, *ray, start, r),
            decreases pending(self.nodes@, stack@),
        {
            let ghost before = stack@;
            let ghost isect_before = isect;
            let ghost work_before = Workload { num_aabbs, num_triangles, max_stack };
            let (aabb_isect, index) = stack.pop().unwrap();
            let ghost popped = stack@;
            assert(popped =~= before.drop_last());
            assert(before.last() == (aabb_isect, index));
            assert(slot_ok(self.nodes@, self.triangles@.len() as int, index as int));
            assert(pending(self.nodes@, before) == pending(self.nodes@, popped) + weight(
                self.nodes@,
                index as int,
            ));
            assert(weight(self.nodes@, index as int) >= 1);

            // If the box is further away than the current nearest
            // intersection, then nothing inside the node can yield
            // a closer intersection, so we can skip the node.
            if !aabb_isect.is_further_away_than(isect.distance) {
                let node = self.nodes[index];
                if node.len == 0 {
                    // This is an internal node.
                    let child = node.index as usize;
                    self.push_if_hit(arithmetic, ray, &mut stack, child);
                    let ghost first = stack@;
                    self.push_if_hit(arithmetic, ray, &mut stack, child + 1);
                    if num_aabbs <= u32::MAX - 2 {
                        num_aabbs += 2;
                    } else {
                        num_aabbs = u32::MAX;
                    }
                    if stack.len() > max_stack {
                        max_stack = stack.len();
                    }
                    proof {
                        assert(pair_pushed(
                            arithmetic,
                            self.nodes@,
                            *ray,
                            child as int,
                            popped,
                            first,
                            stack@,
                        ));
                        assert forall|n: nat, r: (MIntersection, Workload)| #[trigger]
                            walked(
                                arithmetic,
                                self.nodes@,
                                self.triangles@,
                                *ray,
                                stack@,
                                isect,
                                (Workload { num_aabbs, num_triangles, max_stack }),
                                n,
                                r,
                            ) implies traversal(
                            arithmetic,
                            self.nodes@,
                            self.triangles@,
                            *ray,
                            start,
                            r,
                        ) by {
                            assert(walked(
                                arithmetic,
                                self.nodes@,
                                self.triangles@,
                                *ray,
                                before,
                                isect_before,
                                work_before,
                                n + 1,
                                r,
                            ));
                        }
                    }
                    proof {
                        let nodes = self.nodes@;
                        // The children lie lower than their parent, which was
                        // on top of the stack.
                        let top = popped.len() as int;
                        assert(height(nodes, before[top].1 as int) + top <= depth(nodes) + 1);
                        assert(height(nodes, child as int) < height(nodes, index as int));
                        assert(height(nodes, child + 1) < height(nodes, index as int));
                        assert(height(nodes, child as int) >= 1);
                        assert(height(nodes, child + 1) >= 1);
                        assert forall|p: int| 0 <= p < stack.len() implies height(
                            nodes,
                            (#[trigger] stack[p]).1 as int,
                        ) + p <= depth(nodes) + 1 by {
                            if p < top {
                                assert(stack[p] == before[p]);
                            }
                        }
                        assert(weight(nodes, index as int) == 1 + weight(nodes, child as int)
                            + weight(nodes, child + 1));
                        assert(pending(nodes, first) <= pending(nodes, popped) + weight(
                            nodes,
                            child as int,
                        )) by {
                            if first != popped {
                                assert(first.drop_last() =~= popped);
                                assert(first.last().1 == child);
                            }
                        }
                        assert(pending(nodes, stack@) <= pending(nodes, first) + weight(
                            nodes,
                            child + 1,
                        )) by {
                            if stack@ != first {
                                assert(stack@.drop_last() =~= first);
                                assert(stack@.last().1 == child + 1);
                            }
                        }
                    }
                } else {
                    let end = node.index + node.len;
                    let mut i = node.index;
                    let ghost mut hits: Seq<MTriangleHit> = Seq::empty();
                    while i < end
                        invariant
                            node.index <= i <= end,
                            end <= self.triangles.len(),
                            hits.len() == i - node.index,
                            hits_given(arithmetic, self.triangles@, *ray, node.index as int, hits),
                            isect == leaf_tried(
                                self.triangles@,
                                node.index as int,
                                hits,
                                isect_before,
                            ),
                            forall|k: int|
                                0 <= k < 8 ==> nearer_or_same(
                                    start.lane(k),
                                    #[trigger] isect.lane(k),
                                ),
                            traversed(self.triangles@, tried, start, isect),
                        decreases end - i,
                    {
                        let triangle = &self.triangles[i as usize];
                        let hit = arithmetic.triangle_hit(triangle, ray);
                        let ghost nearest = isect;
                        isect = triangle.intersect(&hit, isect);
                        proof {
                            assert forall|k: int| 0 <= k < 8 implies nearer_or_same(
                                start.lane(k),
                                #[trigger] isect.lane(k),
                            ) by {
                                assert(nearer_or_same(start.lane(k), nearest.lane(k)));
                            }
                            let longer = tried.push((i as int, hit));
                            assert(longer.drop_last() =~= tried);
                            tried = longer;
                            let more = hits.push(hit);
                            assert(more.drop_last() =~= hits);
                            assert(call_ensures(A::triangle_hit, (arithmetic, triangle, ray), hit));
                            assert forall|t: int| 0 <= t < more.len() implies call_ensures(
                                A::triangle_hit,
                                (arithmetic, &self.triangles@[node.index + t], &*ray),
                                #[trigger] more[t],
                            ) by {
                                if t < hits.len() {
                                    assert(more[t] == hits[t]);
                                }
                            }
                            hits = more;
                        }
                        i += 1;
                    }
                    if num_triangles <= u32::MAX - node.len {
                        num_triangles += node.len;
                    } else {
                        num_triangles = u32::MAX;
                    }
                    proof {
                        assert forall|n: nat, r: (MIntersection, Workload)| #[trigger]
                            walked(
                                arithmetic,
                                self.nodes@,
                                self.triangles@,
                                *ray,
                                stack@,
                                isect,
                                (Workload { num_aabbs, num_triangles, max_stack }),
                                n,
                                r,
                            ) implies traversal(
                            arithmetic,
                            self.nodes@,
                            self.triangles@,
                            *ray,
                            start,
                            r,
                        ) by {
                            assert(walked(
                                arithmetic,
                                self.nodes@,
                                self.triangles@,
                                *ray,
                                before,
                                isect_before,
                                work_before,
                                n + 1,
                                r,
                            ));
                        }
                    }
                }
            } else {
                proof {
                    assert(further(aabb_isect.distance, isect.distance));
                    assert forall|n: nat, r: (MIntersection, Workload)| #[trigger]
                        walked(
                            arithmetic,
                            self.nodes@,
                            self.triangles@,
                            *ray,
                            stack@,
                            isect,
                            (Workload { num_aabbs, num_triangles, max_stack }),
                            n,
                            r,
                        ) implies traversal(
                        arithmetic,
                        self.nodes@,
                        self.triangles@,
                        *ray,
                        start,
                        r,
                    ) by {
                        assert(walked(
                            arithmetic,
                            self.nodes@,
                            self.triangles@,
                            *ray,
                            before,
                            isect_before,
                            work_before,
                            n + 1,
                            r,
                        ));
                    }
                }
            }
        }
        let r = (isect, Workload { num_aabbs, num_triangles, max_stack });
        proof {
            assert(traversed(self.triangles(), tried, start, r.0));
            assert(walked(
                arithmetic,
                self.nodes@,
                self.triangles@,
                *ray,
                stack@,
                isect,
                r.1,
                0,
                r,
            ));
        }
        r
    }

    /// Finds for every lane the nearest hit of its ray that is nearer than the
    /// hit in `isect`.
    ///
    /// Both roots are tested, and then node after node from a stack: a node
    /// whose box is entered beyond the nearest hits of all lanes is skipped,
    /// the children of an internal node are pushed where a lane hits their
    /// box, and the triangles of a leaf are tried in order. Whatever the
    /// arithmetic returns, the result is what trying some triangles of the
    /// hierarchy makes of `isect`, so a lane of the result is the lane of
    /// `isect` or has a strictly smaller distance.
    pub fn intersect_nearest<A: Arithmetic>(
        &self,
        arithmetic: &A,
        ray: &MRay,
        isect: MIntersection,
    ) -> (r: MIntersection)
        ensures
            traversal_found(arithmetic, self.nodes(), self.triangles(), *ray, isect, r),
            forall|k: int| 0 <= k < 8 ==> nearer_or_same(isect.lane(k), #[trigger] r.lane(k)),
            exists|tried: Seq<(int, MTriangleHit)>| traversed(self.triangles(), tried, isect, r),
    {
        let r = self.traverse(arithmetic, ray, isect);
        assert(traversal(arithmetic, self.nodes(), self.triangles(), *ray, isect, r));
        r.0
    }

    /// Returns how much work a traversal from the given nearest hits is. The
    /// two roots are always tested, and the stack holds no more nodes than the
    /// hierarchy is deep, and one.
    pub fn intersect_debug<A: Arithmetic>(
        &self,
        arithmetic: &A,
        ray: &MRay,
        isect: MIntersection,
    ) -> (r: Workload)
        ensures
            traversal_worked(arithmetic, self.nodes(), self.triangles(), *ray, isect, r),
            r.num_aabbs >= 2,
            r.max_stack <= depth(self.nodes()) + 1,
    {
        let r = self.traverse(arithmetic, ray, isect);
        assert(traversal(arithmetic, self.nodes(), self.triangles(), *ray, isect, r));
        r.1
    }

    /// Returns the mask of the lanes whose ray hits something nearer than
    /// `max_dist` less the margin.
    pub fn intersect_any<A: Arithmetic>(&self, arithmetic: &A, ray: &MRay, max_dist: Mf32) -> (r:
        Mask)
        ensures
            exists|start: MIntersection, found: MIntersection, threshold: Mf32|
                found_any(
                    arithmetic,
                    self.nodes(),
                    self.triangles(),
                    *ray,
                    max_dist,
                    start,
                    found,
                    threshold,
                    r,
                ),
    {
        // This is a full traversal. Stopping as soon as every lane has met
        // something was tried and was not measurably faster.
        let isect = MIntersection {
            position: arithmetic.point_at(ray, max_dist),
            normal: ray.direction,
            distance: max_dist,
            material: Mf32::zero(),
        };
        let found = self.intersect_nearest(arithmetic, ray, isect);
        let threshold = arithmetic.less_epsilon(max_dist);
        let r = Bvh::any_hit(found.distance, threshold);
        proof {
            assert(found_any(
                arithmetic,
                self.nodes(),
                self.triangles(),
                *ray,
                max_dist,
                isect,
                found,
                threshold,
                r,
            ));
        }
        r
    }

    /// Returns the mask of the lanes whose distance is less than the threshold.
    pub fn any_hit(distance: Mf32, threshold: Mf32) -> (r: Mask)
        ensures
            r == hits(distance, threshold),
    {
        let missed = distance.geq(threshold);
        let r = core::ops::Not::not(missed);
        proof {
            assert(!0xffff_ffffu32 == 0u32) by (bit_vector);
            assert(!0u32 == 0xffff_ffffu32) by (bit_vector);
        }
        r
    }
}

} // verus!
