//! The tree that the builder grows before it is packed into arrays: triangle
//! references, the bins of a sweep, and the node that splits itself.

use vstd::prelude::*;
use vstd::multiset::Multiset;
use crate::aabb::Aabb;
use crate::arithmetic::{Arithmetic, Heuristic};
use crate::lane;
use crate::lane::{less, less_eq};
use crate::triangle::Triangle;
use crate::vector3::{Axis, SVector3};

verus! {

/// Reference to a triangle used during construction.
#[derive(Copy, Clone, Debug)]
pub struct TriangleRef {
    pub aabb: Aabb,
    pub barycenter: SVector3,
    pub index: usize,
}

/// A node used during construction.
pub struct InterimNode {
    /// Bounding box of the triangles in the node.
    pub outer_aabb: Aabb,
    /// Bounding box of the barycenters of the triangles in the node.
    pub inner_aabb: Aabb,
    pub children: Vec<InterimNode>,
    pub triangles: Vec<TriangleRef>,
}

/// The triangles whose barycenter falls into one slice of a node, and the box
/// around them.
pub struct Bin {
    pub triangles: Vec<TriangleRef>,
    pub aabb: Option<Aabb>,
}

/// The boxes of the references, in order.
pub open spec fn boxes(refs: Seq<TriangleRef>) -> Seq<Aabb> {
    refs.map_values(|t: TriangleRef| t.aabb)
}

/// The barycenters of the references, in order.
pub open spec fn barycenters(refs: Seq<TriangleRef>) -> Seq<SVector3> {
    refs.map_values(|t: TriangleRef| t.barycenter)
}

/// The references that were put into bin `b`, in order, when reference `i`
/// went to bin `slots[i]`.
pub open spec fn in_slot(refs: Seq<TriangleRef>, slots: Seq<int>, b: int) -> Seq<TriangleRef>
    decreases refs.len(),
{
    if refs.len() == 0 || slots.len() != refs.len() {
        Seq::empty()
    } else {
        let rest = in_slot(refs.drop_last(), slots.drop_last(), b);
        if slots.last() == b {
            rest.push(refs.last())
        } else {
            rest
        }
    }
}

/// Whether `after` are the bins `before` with the references put into them:
/// reference `i` at the end of bin `slots[i]`.
pub open spec fn binned_into(
    before: Seq<Bin>,
    after: Seq<Bin>,
    refs: Seq<TriangleRef>,
    slots: Seq<int>,
) -> bool {
    &&& after.len() == before.len()
    &&& slots.len() == refs.len()
    &&& forall|i: int| 0 <= i < slots.len() ==> 0 <= #[trigger] slots[i] < after.len()
    &&& forall|b: int|
        0 <= b < after.len() ==> (#[trigger] after[b]).triangles@ == before[b].triangles@
            + in_slot(refs, slots, b)
}

/// Whether every bin has the box of its triangles.
pub open spec fn all_bins_wf(bins: Seq<Bin>) -> bool {
    forall|b: int| 0 <= b < bins.len() ==> (#[trigger] bins[b]).wf()
}

/// The boxes of the bins that hold a triangle, in order.
pub open spec fn bin_boxes(bins: Seq<Bin>) -> Seq<Aabb>
    decreases bins.len(),
{
    if bins.len() == 0 {
        Seq::empty()
    } else {
        let rest = bin_boxes(bins.drop_last());
        match bins.last().aabb {
            Some(aabb) => if bins.last().triangles.len() > 0 {
                rest.push(aabb)
            } else {
                rest
            },
            None => rest,
        }
    }
}

/// The number of bins that hold a triangle.
pub open spec fn occupied(bins: Seq<Bin>) -> nat
    decreases bins.len(),
{
    if bins.len() == 0 {
        0
    } else {
        occupied(bins.drop_last()) + if bins.last().triangles.len() > 0 {
            1nat
        } else {
            0nat
        }
    }
}

/// The number of triangles in all the bins.
pub open spec fn binned(bins: Seq<Bin>) -> nat
    decreases bins.len(),
{
    if bins.len() == 0 {
        0
    } else {
        binned(bins.drop_last()) + bins.last().triangles.len() as nat
    }
}

/// The index of the cheapest of the costs: the first one that no later cost is
/// strictly less than. A NaN is never less, so it is chosen only in front.
pub open spec fn cheapest_of(costs: Seq<u32>) -> int
    decreases costs.len(),
{
    if costs.len() <= 1 {
        0
    } else {
        let best = cheapest_of(costs.drop_last());
        if less(costs.last(), costs[best]) {
            costs.len() - 1
        } else {
            best
        }
    }
}

/// Whether a triangle goes to the left child of a split of `axis` at `at`:
/// its barycenter coordinate is at most `at`.
pub open spec fn goes_left(axis: Axis, at: u32) -> spec_fn(TriangleRef) -> bool {
    |t: TriangleRef| less_eq(t.barycenter.coord(axis), at)
}

/// Whether a triangle goes to the right child of a split of `axis` at `at`.
pub open spec fn goes_right(axis: Axis, at: u32) -> spec_fn(TriangleRef) -> bool {
    |t: TriangleRef| !less_eq(t.barycenter.coord(axis), at)
}

/// Whether `left` and `right` are the leaves of the two sides of a split of
/// `refs` along `axis` at `at`, neither of them empty.
pub open spec fn is_split_at(
    refs: Seq<TriangleRef>,
    left: InterimNode,
    right: InterimNode,
    axis: Axis,
    at: u32,
) -> bool {
    &&& left.is_leaf_of(refs.filter(goes_left(axis, at)))
    &&& right.is_leaf_of(refs.filter(goes_right(axis, at)))
    &&& left.triangles.len() > 0
    &&& right.triangles.len() > 0
}

/// Whether `left` and `right` are the leaves of the two sides of some split
/// of `refs`.
pub open spec fn is_split_of(refs: Seq<TriangleRef>, left: InterimNode, right: InterimNode)
    -> bool {
    exists|axis: Axis, at: u32| is_split_at(refs, left, right, axis, at)
}

/// Whether `slot` is the bin, out of `bins`, that the arithmetic gives for the
/// coordinate: its answer, or the last bin where the answer is out of range.
pub open spec fn slot_given<A: Arithmetic>(
    arithmetic: &A,
    bins: usize,
    min: u32,
    max: u32,
    coord: u32,
    slot: int,
) -> bool {
    exists|raw: usize|
        call_ensures(A::bin_index, (arithmetic, bins, min, max, coord), raw) && slot == (if raw
            < bins {
            raw as int
        } else {
            bins - 1
        })
}

/// Whether `after` are the bins `before` with the references put into them,
/// each into the bin that the arithmetic gives for its barycenter coordinate
/// along `axis` between `min` and `max`.
pub open spec fn binned_by<A: Arithmetic>(
    arithmetic: &A,
    refs: Seq<TriangleRef>,
    axis: Axis,
    min: u32,
    max: u32,
    count: usize,
    before: Seq<Bin>,
    after: Seq<Bin>,
    slots: Seq<int>,
) -> bool {
    &&& before.len() == count
    &&& binned_into(before, after, refs, slots)
    &&& forall|i: int|
        0 <= i < refs.len() ==> slot_given(
            arithmetic,
            count,
            min,
            max,
            (#[trigger] refs[i]).barycenter.coord(axis),
            slots[i],
        )
}

/// Whether `cost` is the cost of the split of the bins at the boundary `at`:
/// the sum, as the arithmetic gives it, of what the heuristic asks for the
/// bins below the boundary and for the bins from the boundary on, each with
/// its box and its number of triangles, under a parent with the box `outer`.
pub open spec fn cost_given<A: Arithmetic, H: Heuristic>(
    arithmetic: &A,
    heuristic: &H,
    outer: Aabb,
    bins: Seq<Bin>,
    at: int,
    cost: u32,
) -> bool {
    exists|sides: (usize, u32, usize, u32)|
        cost_given_with(arithmetic, heuristic, outer, bins, at, sides, cost)
}

/// The same, where `sides` are the number of triangles and the cost of the
/// left side, and those of the right side.
pub open spec fn cost_given_with<A: Arithmetic, H: Heuristic>(
    arithmetic: &A,
    heuristic: &H,
    outer: Aabb,
    bins: Seq<Bin>,
    at: int,
    sides: (usize, u32, usize, u32),
    cost: u32,
) -> bool {
    let left = bins.take(at);
    let right = bins.skip(at);
    &&& sides.0 == binned(left)
    &&& sides.2 == binned(right)
    &&& call_ensures(
        H::aabb_cost,
        (heuristic, &outer, &Aabb::around_aabbs(bin_boxes(left)), sides.0),
        sides.1,
    )
    &&& call_ensures(
        H::aabb_cost,
        (heuristic, &outer, &Aabb::around_aabbs(bin_boxes(right)), sides.2),
        sides.3,
    )
    &&& call_ensures(A::sum, (arithmetic, sides.1, sides.3), cost)
}

/// Whether `r` is the cheapest split of the bins and its cost, where the costs
/// of the boundaries are those that heuristic and arithmetic give.
pub open spec fn is_cheapest_split_by<A: Arithmetic, H: Heuristic>(
    arithmetic: &A,
    heuristic: &H,
    outer: Aabb,
    bins: Seq<Bin>,
    f: int,
    l: int,
    costs: Seq<u32>,
    r: (usize, u32),
) -> bool {
    &&& is_cheapest_split(bins, f, l, costs, r)
    &&& forall|k: int|
        0 <= k < costs.len() ==> cost_given(
            arithmetic,
            heuristic,
            outer,
            bins,
            f + 1 + k,
            #[trigger] costs[k],
        )
}

/// Whether `r` is the cheapest split of the bins and its cost.
pub open spec fn priced<A: Arithmetic, H: Heuristic>(
    arithmetic: &A,
    heuristic: &H,
    outer: Aabb,
    bins: Seq<Bin>,
    r: (usize, u32),
) -> bool {
    exists|f: int, l: int, costs: Seq<u32>|
        is_cheapest_split_by(arithmetic, heuristic, outer, bins, f, l, costs, r)
}

/// The number of bins of a sweep.
pub const NUM_BINS: usize = 64;

/// Whether `bins` are the bins of the node along `axis`: 64 of them, each with
/// its box, reference `i` of the node in bin `slots[i]`, which is the bin that
/// the arithmetic gives for its barycenter.
pub open spec fn axis_binned<A: Arithmetic>(
    arithmetic: &A,
    node: InterimNode,
    axis: Axis,
    bins: Seq<Bin>,
    slots: Seq<int>,
) -> bool {
    &&& bins.len() == NUM_BINS
    &&& all_bins_wf(bins)
    &&& slots.len() == node.triangles.len()
    &&& forall|b: int|
        0 <= b < bins.len() ==> (#[trigger] bins[b]).triangles@ == in_slot(
            node.triangles@,
            slots,
            b,
        )
    &&& forall|i: int|
        0 <= i < node.triangles.len() ==> slot_given(
            arithmetic,
            NUM_BINS,
            node.inner_aabb.origin.coord(axis),
            node.inner_aabb.far.coord(axis),
            (#[trigger] node.triangles[i]).barycenter.coord(axis),
            slots[i],
        )
}

/// Whether `offer` is what the sweep of the node along `axis` with the bins
/// `bins` offers: the cheapest split of the bins and its cost, or nothing where
/// fewer than two bins hold a triangle.
pub open spec fn axis_offered<A: Arithmetic, H: Heuristic>(
    arithmetic: &A,
    heuristic: &H,
    node: InterimNode,
    axis: Axis,
    bins: Seq<Bin>,
    slots: Seq<int>,
    offer: Option<(usize, u32)>,
) -> bool {
    &&& axis_binned(arithmetic, node, axis, bins, slots)
    &&& match offer {
        Some(r) => occupied(bins) > 1 && priced(arithmetic, heuristic, node.outer_aabb, bins, r),
        None => occupied(bins) <= 1,
    }
}

/// Whether `after` is the best split so far once the offer of `axis` was
/// held against `before`: an offer takes the place of nothing and of what
/// costs strictly more, and then the split coordinate is what the arithmetic
/// gives for the boundary of the offer.
pub open spec fn bettered<A: Arithmetic>(
    arithmetic: &A,
    node: InterimNode,
    axis: Axis,
    before: Option<(Axis, u32, u32)>,
    offer: Option<(usize, u32)>,
    after: Option<(Axis, u32, u32)>,
) -> bool {
    let wins = match (offer, before) {
        (Some(r), Some(b)) => less(r.1, b.2),
        (Some(r), None) => true,
        (None, _) => false,
    };
    if wins {
        match (offer, after) {
            (Some(r), Some(a)) => {
                &&& a.0 == axis
                &&& a.2 == r.1
                &&& call_ensures(
                    A::split_coordinate,
                    (
                        arithmetic,
                        NUM_BINS,
                        node.inner_aabb.origin.coord(axis),
                        node.inner_aabb.far.coord(axis),
                        r.0,
                    ),
                    a.1,
                )
            },
            _ => false,
        }
    } else {
        after == before
    }
}

/// Whether `after` is the best split so far once `axis` was considered with
/// the bins `bins` and the offer `offer`.
pub open spec fn considered_with<A: Arithmetic, H: Heuristic>(
    arithmetic: &A,
    heuristic: &H,
    node: InterimNode,
    axis: Axis,
    before: Option<(Axis, u32, u32)>,
    after: Option<(Axis, u32, u32)>,
    bins: Seq<Bin>,
    slots: Seq<int>,
    offer: Option<(usize, u32)>,
) -> bool {
    &&& axis_offered(arithmetic, heuristic, node, axis, bins, slots, offer)
    &&& bettered(arithmetic, node, axis, before, offer, after)
}

/// Whether `after` is the best split so far once `axis` was considered: the
/// triangles of the node were put into bins along the axis, and the cheapest
/// split of the bins was held against `before`.
pub open spec fn considered<A: Arithmetic, H: Heuristic>(
    arithmetic: &A,
    heuristic: &H,
    node: InterimNode,
    axis: Axis,
    before: Option<(Axis, u32, u32)>,
    after: Option<(Axis, u32, u32)>,
) -> bool {
    exists|bins: Seq<Bin>, slots: Seq<int>, offer: Option<(usize, u32)>|
        considered_with(arithmetic, heuristic, node, axis, before, after, bins, slots, offer)
}

/// Whether `after` is the leaf `before`, unchanged.
pub open spec fn kept(before: InterimNode, after: InterimNode) -> bool {
    &&& after.triangles@ == before.triangles@
    &&& after.children.len() == 0
    &&& after.outer_aabb == before.outer_aabb
    &&& after.inner_aabb == before.inner_aabb
}

/// Whether `after` is what becomes of the leaf `before` where the best split
/// is along `axis` at `at` for `cost`, and the leaf costs `leaf_cost`: the leaf
/// is kept unless the split is strictly cheaper and leaves no side empty, and
/// else it has the two sides of the split for children and no triangles.
pub open spec fn outcome(
    before: InterimNode,
    after: InterimNode,
    axis: Axis,
    at: u32,
    cost: u32,
    leaf_cost: u32,
) -> bool {
    if !less(cost, leaf_cost) || before.triangles@.filter(goes_left(axis, at)).len() == 0
        || before.triangles@.filter(goes_right(axis, at)).len() == 0 {
        kept(before, after)
    } else {
        &&& after.triangles.len() == 0
        &&& after.children.len() == 2
        &&& after.outer_aabb == before.outer_aabb
        &&& after.inner_aabb == before.inner_aabb
        &&& is_split_at(before.triangles@, after.children[0], after.children[1], axis, at)
    }
}

/// Whether `after` is what becomes of the leaf `before` with the best split
/// `best`: without one the leaf is kept; with one the leaf costs what the
/// heuristic asks for its triangles, and the outcome follows.
pub open spec fn decided<H: Heuristic>(
    heuristic: &H,
    before: InterimNode,
    after: InterimNode,
    best: Option<(Axis, u32, u32)>,
) -> bool {
    match best {
        Some(b) => exists|leaf_cost: u32|
            call_ensures(H::tris_cost, (heuristic, before.triangles.len()), leaf_cost)
                && outcome(before, after, b.0, b.1, b.2, leaf_cost),
        None => kept(before, after),
    }
}

/// Whether `after` is the leaf `before` after `split`, where `x`, `y` and `z`
/// are the best splits once the axes were considered one after the other.
pub open spec fn split_by_with<A: Arithmetic, H: Heuristic>(
    arithmetic: &A,
    heuristic: &H,
    before: InterimNode,
    after: InterimNode,
    x: Option<(Axis, u32, u32)>,
    y: Option<(Axis, u32, u32)>,
    z: Option<(Axis, u32, u32)>,
) -> bool {
    &&& considered(arithmetic, heuristic, before, Axis::X, None, x)
    &&& considered(arithmetic, heuristic, before, Axis::Y, x, y)
    &&& considered(arithmetic, heuristic, before, Axis::Z, y, z)
    &&& decided(heuristic, before, after, z)
}

/// Whether `after` is the leaf `before` after `split`: a leaf of at most one
/// triangle is kept; else the three axes are considered in turn, and the leaf
/// is split where the best of their offers is strictly cheaper than the leaf
/// and leaves no side empty.
pub open spec fn split_by<A: Arithmetic, H: Heuristic>(
    arithmetic: &A,
    heuristic: &H,
    before: InterimNode,
    after: InterimNode,
) -> bool {
    if before.triangles.len() <= 1 {
        kept(before, after)
    } else {
        exists|x: Option<(Axis, u32, u32)>, y: Option<(Axis, u32, u32)>, z: Option<(Axis, u32, u32)>|
            split_by_with(arithmetic, heuristic, before, after, x, y, z)
    }
}

/// Whether `tree` is what grows of the leaf `leaf` where every node is split
/// as `split` splits it, until it stays a leaf.
pub open spec fn grown<A: Arithmetic, H: Heuristic>(
    arithmetic: &A,
    heuristic: &H,
    leaf: InterimNode,
    tree: InterimNode,
) -> bool
    decreases tree,
{
    exists|mid: InterimNode|
        #[trigger] split_by(arithmetic, heuristic, leaf, mid) && if mid.children.len() == 2 {
            &&& tree.children.len() == 2
            &&& tree.triangles.len() == 0
            &&& tree.outer_aabb == leaf.outer_aabb
            &&& tree.inner_aabb == leaf.inner_aabb
            &&& grown(arithmetic, heuristic, mid.children[0], tree.children[0])
            &&& grown(arithmetic, heuristic, mid.children[1], tree.children[1])
        } else {
            kept(mid, tree)
        }
}

/// Whether bin `f` is the first that holds a triangle.
pub open spec fn is_first_occupied(bins: Seq<Bin>, f: int) -> bool {
    &&& 0 <= f < bins.len()
    &&& bins[f].triangles.len() > 0
    &&& forall|j: int| 0 <= j < f ==> (#[trigger] bins[j]).triangles.len() == 0
}

/// Whether bin `l` is the last that holds a triangle.
pub open spec fn is_last_occupied(bins: Seq<Bin>, l: int) -> bool {
    &&& 0 <= l < bins.len()
    &&& bins[l].triangles.len() > 0
    &&& forall|j: int| l < j < bins.len() ==> (#[trigger] bins[j]).triangles.len() == 0
}

/// Whether `r` is the cheapest split of the bins and its cost, where the bins
/// `f` and `l` are the first and the last that hold a triangle and `costs` are
/// the costs of the boundaries `f + 1` to `l`, in order.
pub open spec fn is_cheapest_split(
    bins: Seq<Bin>,
    f: int,
    l: int,
    costs: Seq<u32>,
    r: (usize, u32),
) -> bool {
    &&& is_first_occupied(bins, f)
    &&& is_last_occupied(bins, l)
    &&& costs.len() == l - f
    &&& r.0 == f + 1 + cheapest_of(costs)
    &&& r.1 == costs[cheapest_of(costs)]
}

/// Returns the index of the cheapest cost.
pub fn cheapest(costs: &[u32]) -> (r: usize)
    requires
        costs.len() > 0,
    ensures
        r == cheapest_of(costs@),
        r < costs.len(),
        forall|j: int| 0 <= j < costs.len() ==> !less(#[trigger] costs[j], costs[r as int]),
{
    let mut best: usize = 0;
    let mut i: usize = 1;
    assert(costs@.take(1).len() == 1);
    while i < costs.len()
        invariant
            1 <= i <= costs.len(),
            best < i,
            best == cheapest_of(costs@.take(i as int)),
            forall|j: int| 0 <= j < i ==> !less(#[trigger] costs[j], costs[best as int]),
        decreases costs.len() - i,
    {
        assert(costs@.take(i + 1).drop_last() =~= costs@.take(i as int));
        if lane::lt(costs[i], costs[best]) {
            best = i;
        }
        i += 1;
    }
    assert(costs@.take(costs.len() as int) =~= costs@);
    best
}

/// Returns the triangles whose barycenter coordinate along `axis` is at most
/// `at`, and the others, each in their order.
pub fn partition(triangles: &Vec<TriangleRef>, axis: Axis, at: u32) -> (r: (
    Vec<TriangleRef>,
    Vec<TriangleRef>,
))
    ensures
        r.0@ == triangles@.filter(goes_left(axis, at)),
        r.1@ == triangles@.filter(goes_right(axis, at)),
{
    let mut left: Vec<TriangleRef> = Vec::new();
    let mut right: Vec<TriangleRef> = Vec::new();
    let mut i: usize = 0;
    proof {
        reveal(Seq::filter);
        assert(triangles@.take(0) =~= Seq::empty());
    }
    while i < triangles.len()
        invariant
            i <= triangles.len(),
            left@ == triangles@.take(i as int).filter(goes_left(axis, at)),
            right@ == triangles@.take(i as int).filter(goes_right(axis, at)),
        decreases triangles.len() - i,
    {
        let tri = triangles[i];
        proof {
            let before = triangles@.take(i as int);
            assert(triangles@.take(i + 1) =~= before.push(tri));
            before.lemma_filter_push(tri, goes_left(axis, at));
            before.lemma_filter_push(tri, goes_right(axis, at));
        }
        if lane::le(tri.barycenter.get_coord(axis), at) {
            left.push(tri);
        } else {
            right.push(tri);
        }
        i += 1;
    }
    assert(triangles@.take(triangles.len() as int) =~= triangles@);
    (left, right)
}

impl TriangleRef {
    /// Whether the reference names a triangle of `source` and carries its box.
    pub open spec fn refers_to(self, source: Seq<Triangle>) -> bool {
        self.index < source.len() && self.aabb == source[self.index as int].aabb()
    }

    /// Describes triangle `index` to the builder. The barycenter is whatever
    /// the arithmetic returns for the triangle.
    pub fn from_triangle<A: Arithmetic>(arithmetic: &A, index: usize, tri: &Triangle) -> (r:
        TriangleRef)
        ensures
            r.index == index,
            r.aabb == tri.aabb(),
            call_ensures(A::barycenter, (arithmetic, tri), r.barycenter),
    {
        TriangleRef {
            aabb: tri.bounding_box(),
            barycenter: arithmetic.barycenter(tri),
            index: index,
        }
    }
}

impl Bin {
    /// Whether the box is the box around the triangles: none for no triangles.
    pub open spec fn wf(self) -> bool {
        self.aabb == if self.triangles.len() == 0 {
            None
        } else {
            Some(Aabb::around_aabbs(boxes(self.triangles@)))
        }
    }

    /// A bin without triangles.
    pub fn new() -> (r: Bin)
        ensures
            r.triangles@ == Seq::<TriangleRef>::empty(),
            r.aabb == None::<Aabb>,
            r.wf(),
    {
        Bin { triangles: Vec::new(), aabb: None }
    }

    /// Adds a triangle and grows the box to hold it.
    pub fn push(&mut self, tri: TriangleRef)
        ensures
            final(self).triangles@ == old(self).triangles@.push(tri),
            final(self).aabb == Some(
                match old(self).aabb {
                    Some(aabb) => aabb.with_aabb(tri.aabb),
                    None => tri.aabb,
                },
            ),
            old(self).wf() ==> final(self).wf(),
    {
        proof {
            let before = boxes(self.triangles@);
            let after = boxes(self.triangles@.push(tri));
            assert(after =~= before.push(tri.aabb));
            assert(after.drop_last() =~= before);
        }
        self.triangles.push(tri);
        self.aabb = match self.aabb {
            Some(aabb) => {
                let pair = [aabb, tri.aabb];
                assert(pair@ =~= seq![aabb, tri.aabb]);
                proof {
                    crate::aabb::lemma_around_pair(aabb, tri.aabb);
                }
                Some(Aabb::enclose_aabbs(pair.as_slice()))
            },
            None => Some(tri.aabb),
        };
    }
}

impl InterimNode {
    /// Whether the node is a leaf that holds exactly `refs`, with the boxes
    /// that `from_triangle_refs` gives it.
    pub open spec fn is_leaf_of(self, refs: Seq<TriangleRef>) -> bool {
        &&& self.triangles@ == refs
        &&& self.children.len() == 0
        &&& self.outer_aabb == Aabb::around_aabbs(boxes(refs))
        &&& self.inner_aabb == Aabb::around_points(barycenters(refs))
    }

    /// Whether the tree has the shape that the builder keeps: a leaf holds at
    /// least one triangle, every other node holds none and has two children.
    pub open spec fn wf(self) -> bool
        decreases self,
    {
        if self.children.len() == 0 {
            self.triangles.len() > 0
        } else {
            &&& self.children.len() == 2
            &&& self.triangles.len() == 0
            &&& self.children[0].wf()
            &&& self.children[1].wf()
        }
    }

    /// The triangle references in the leaves, from left to right.
    pub open spec fn refs(self) -> Seq<TriangleRef>
        decreases self,
    {
        if self.children.len() == 2 {
            self.children[0].refs() + self.children[1].refs()
        } else {
            self.triangles@
        }
    }

    /// The number of nodes in the tree, this one included.
    pub open spec fn nodes(self) -> nat
        decreases self,
    {
        if self.children.len() == 2 {
            1 + self.children[0].nodes() + self.children[1].nodes()
        } else {
            1
        }
    }

    /// The number of leaves in the tree.
    pub open spec fn leaves(self) -> nat
        decreases self,
    {
        if self.children.len() == 2 {
            self.children[0].leaves() + self.children[1].leaves()
        } else {
            1
        }
    }

    /// Whether every box in the tree holds what lies below it: the box of a
    /// leaf the boxes of its triangles, the box of another node the boxes of
    /// its two children.
    pub open spec fn bounded(self) -> bool
        decreases self,
    {
        if self.children.len() == 2 {
            &&& self.outer_aabb.contains(self.children[0].outer_aabb)
            &&& self.outer_aabb.contains(self.children[1].outer_aabb)
            &&& self.children[0].bounded()
            &&& self.children[1].bounded()
        } else {
            forall|i: int|
                0 <= i < self.triangles.len() ==> self.outer_aabb.contains(
                    (#[trigger] self.triangles[i]).aabb,
                )
        }
    }

    /// Create a single node containing all of the triangles.
    pub fn from_triangle_refs(trirefs: Vec<TriangleRef>) -> (r: InterimNode)
        ensures
            r.triangles@ == trirefs@,
            r.children@.len() == 0,
            r.outer_aabb == Aabb::around_aabbs(boxes(trirefs@)),
            r.inner_aabb == Aabb::around_points(barycenters(trirefs@)),
            r.is_leaf_of(trirefs@),
            (forall|i: int| 0 <= i < trirefs.len() ==> (#[trigger] trirefs[i]).aabb.valid())
                ==> r.bounded(),
    {
        let mut aabbs: Vec<Aabb> = Vec::new();
        let mut points: Vec<SVector3> = Vec::new();
        let mut i: usize = 0;
        while i < trirefs.len()
            invariant
                i <= trirefs.len(),
                aabbs@ == boxes(trirefs@.take(i as int)),
                points@ == barycenters(trirefs@.take(i as int)),
            decreases trirefs.len() - i,
        {
            aabbs.push(trirefs[i].aabb);
            points.push(trirefs[i].barycenter);
            proof {
                let before = trirefs@.take(i as int);
                let after = trirefs@.take(i + 1);
                assert(after =~= before.push(trirefs@[i as int]));
                assert(boxes(after) =~= boxes(before).push(trirefs@[i as int].aabb));
                assert(barycenters(after) =~= barycenters(before).push(
                    trirefs@[i as int].barycenter,
                ));
            }
            i += 1;
        }
        assert(trirefs@.take(trirefs.len() as int) =~= trirefs@);
        let outer_aabb = Aabb::enclose_aabbs(aabbs.as_slice());
        proof {
            if forall|i: int| 0 <= i < trirefs.len() ==> (#[trigger] trirefs[i]).aabb.valid() {
                assert forall|i: int| 0 <= i < aabbs.len() implies (
                #[trigger] aabbs[i]).valid() by {
                    assert(aabbs[i] == trirefs[i].aabb);
                }
                assert forall|i: int| 0 <= i < trirefs.len() implies outer_aabb.contains(
                    (#[trigger] trirefs[i]).aabb,
                ) by {
                    assert(aabbs[i] == trirefs[i].aabb);
                }
            }
        }
        InterimNode {
            outer_aabb,
            inner_aabb: Aabb::enclose_points(points.as_slice()),
            children: Vec::new(),
            triangles: trirefs,
        }
    }

    /// The least and the greatest barycenter coordinate along `axis`.
    pub fn inner_aabb_extent(&self, axis: Axis) -> (r: (u32, u32))
        ensures
            r.0 == self.inner_aabb.origin.coord(axis),
            r.1 == self.inner_aabb.far.coord(axis),
    {
        let min = self.inner_aabb.origin.get_coord(axis);
        let max = self.inner_aabb.far.get_coord(axis);
        (min, max)
    }

    /// Puts triangles into bins along the specified axis. Each triangle goes
    /// into the bin that the arithmetic names for its barycenter, or into the
    /// last bin where that answer is out of range.
    pub fn bin_triangles<A: Arithmetic>(&self, arithmetic: &A, bins: &mut Vec<Bin>, axis: Axis)
        requires
            old(bins).len() > 0,
        ensures
            exists|slots: Seq<int>|
                binned_by(
                    arithmetic,
                    self.triangles@,
                    axis,
                    self.inner_aabb.origin.coord(axis),
                    self.inner_aabb.far.coord(axis),
                    old(bins).len(),
                    old(bins)@,
                    final(bins)@,
                    slots,
                ),
            exists|slots: Seq<int>| binned_into(old(bins)@, final(bins)@, self.triangles@, slots),
            binned(final(bins)@) == binned(old(bins)@) + self.triangles.len(),
            all_bins_wf(old(bins)@) ==> all_bins_wf(final(bins)@),
    {
        // Compute the bounds of the bins.
        let (min, max) = self.inner_aabb_extent(axis);
        let count = bins.len();
        let ghost mut slots: Seq<int> = Seq::empty();

        // Put the triangles in bins.
        let mut i: usize = 0;
        while i < self.triangles.len()
            invariant
                i <= self.triangles.len(),
                count > 0,
                count == old(bins).len(),
                binned_by(
                    arithmetic,
                    self.triangles@.take(i as int),
                    axis,
                    min,
                    max,
                    count,
                    old(bins)@,
                    bins@,
                    slots,
                ),
                min == self.inner_aabb.origin.coord(axis),
                max == self.inner_aabb.far.coord(axis),
                binned(bins@) == binned(old(bins)@) + i,
                all_bins_wf(old(bins)@) ==> all_bins_wf(bins@),
            decreases self.triangles.len() - i,
        {
            let tri = self.triangles[i];
            let coord = tri.barycenter.get_coord(axis);
            let raw = arithmetic.bin_index(count, min, max, coord);
            let index = if raw < count { raw } else { count - 1 };
            let ghost before = bins@;
            bins[index].push(tri);
            proof {
                let taken = self.triangles@.take(i + 1);
                let grown = slots.push(index as int);
                assert(call_ensures(A::bin_index, (arithmetic, count, min, max, coord), raw));
                assert(slot_given(arithmetic, count, min, max, coord, index as int));
                assert forall|k: int| 0 <= k < taken.len() implies slot_given(
                    arithmetic,
                    count,
                    min,
                    max,
                    (#[trigger] taken[k]).barycenter.coord(axis),
                    grown[k],
                ) by {
                    if k < i {
                        assert(taken[k] == self.triangles@.take(i as int)[k]);
                        assert(grown[k] == slots[k]);
                    }
                }
                assert(taken.drop_last() =~= self.triangles@.take(i as int));
                assert(grown.drop_last() =~= slots);
                assert(taken.last() == tri);
                lemma_binned_grows(before, bins@, index as int);
                assert forall|b: int| 0 <= b < count implies (#[trigger] bins[b]).triangles@
                    == old(bins)[b].triangles@ + in_slot(taken, grown, b) by {
                    if b != index {
                        assert(bins[b] == before[b]);
                    } else {
                        assert(bins[b].triangles@ =~= old(bins)[b].triangles@ + in_slot(
                            taken,
                            grown,
                            b,
                        ));
                    }
                }
                if all_bins_wf(old(bins)@) {
                    assert forall|b: int| 0 <= b < count implies (#[trigger] bins[b]).wf() by {
                        if b != index {
                            assert(bins[b] == before[b]);
                        }
                    }
                }
                slots = grown;
            }
            i += 1;
        }
        proof {
            assert(self.triangles@.take(self.triangles.len() as int) =~= self.triangles@);
        }
    }

    /// Returns the bounding box enclosing the bin bounding boxes.
    pub fn enclose_bins(bins: &[Bin]) -> (r: Aabb)
        ensures
            r == Aabb::around_aabbs(bin_boxes(bins@)),
    {
        let mut aabbs: Vec<Aabb> = Vec::new();
        let mut i: usize = 0;
        while i < bins.len()
            invariant
                i <= bins.len(),
                aabbs@ == bin_boxes(bins@.take(i as int)),
            decreases bins.len() - i,
        {
            assert(bins@.take(i + 1).drop_last() =~= bins@.take(i as int));
            if bins[i].triangles.len() > 0 {
                match bins[i].aabb {
                    Some(aabb) => {
                        aabbs.push(aabb);
                    },
                    None => {},
                }
            }
            i += 1;
        }
        assert(bins@.take(bins.len() as int) =~= bins@);
        Aabb::enclose_aabbs(aabbs.as_slice())
    }

    /// Returns whether there is more than one non-empty bin.
    pub fn are_bins_valid(bins: &[Bin]) -> (r: bool)
        ensures
            r == (occupied(bins@) > 1),
    {
        let mut count: usize = 0;
        let mut i: usize = 0;
        while i < bins.len()
            invariant
                i <= bins.len(),
                count == occupied(bins@.take(i as int)),
                count <= i,
            decreases bins.len() - i,
        {
            assert(bins@.take(i + 1).drop_last() =~= bins@.take(i as int));
            if !bins[i].triangles.is_empty() {
                count += 1;
            }
            i += 1;
        }
        assert(bins@.take(bins.len() as int) =~= bins@);
        1 < count
    }

    /// Returns the first and the last bin that hold a triangle.
    pub fn occupied_range(bins: &[Bin]) -> (r: (usize, usize))
        requires
            occupied(bins@) > 1,
        ensures
            is_first_occupied(bins@, r.0 as int),
            is_last_occupied(bins@, r.1 as int),
            r.0 < r.1,
    {
        let mut first: usize = 0;
        while first < bins.len() && bins[first].triangles.is_empty()
            invariant
                first <= bins.len(),
                forall|j: int| 0 <= j < first ==> (#[trigger] bins[j]).triangles.len() == 0,
            decreases bins.len() - first,
        {
            first += 1;
        }
        proof {
            if first == bins.len() {
                lemma_occupied_within(bins@, 0, 0);
            }
        }
        let mut last: usize = bins.len() - 1;
        while last > first && bins[last].triangles.is_empty()
            invariant
                first <= last < bins.len(),
                forall|j: int| last < j < bins.len() ==> (#[trigger] bins[j]).triangles.len() == 0,
            decreases last,
        {
            last -= 1;
        }
        proof {
            if first == last {
                lemma_occupied_within(bins@, first as int, first + 1);
            }
        }
        (first, last)
    }

    /// Returns the number of triangles in the bins.
    pub fn count_binned(bins: &[Bin]) -> (r: usize)
        requires
            binned(bins@) <= usize::MAX,
        ensures
            r == binned(bins@),
    {
        let mut count: usize = 0;
        let mut i: usize = 0;
        while i < bins.len()
            invariant
                i <= bins.len(),
                count == binned(bins@.take(i as int)),
                binned(bins@) <= usize::MAX,
            decreases bins.len() - i,
        {
            proof {
                assert(bins@.take(i + 1).drop_last() =~= bins@.take(i as int));
                lemma_binned_split(bins@, i + 1);
            }
            count += bins[i].triangles.len();
            i += 1;
        }
        assert(bins@.take(bins.len() as int) =~= bins@);
        count
    }

    /// Returns the bin index such that for the cheapest split, all bins with a
    /// lower index should go into one node. Also returns the cost of the split.
    ///
    /// Every boundary after the first occupied bin and up to the last one is a
    /// candidate. Its cost is the sum of what the heuristic asks for the two
    /// sides; the first candidate that none is strictly cheaper than wins.
    pub fn find_cheapest_split<A: Arithmetic, H: Heuristic>(
        &self,
        arithmetic: &A,
        heuristic: &H,
        bins: &[Bin],
    ) -> (r: (usize, u32))
        requires
            occupied(bins@) > 1,
            binned(bins@) <= usize::MAX,
        ensures
            priced(arithmetic, heuristic, self.outer_aabb, bins@, r),
            exists|f: int, l: int, costs: Seq<u32>| is_cheapest_split(bins@, f, l, costs, r),
            0 < r.0 < bins.len(),
    {
        // Consider every split position after the first non-empty bin, up to
        // the last non-empty bin.
        let (first, last) = InterimNode::occupied_range(bins);
        let mut costs: Vec<u32> = Vec::new();
        let mut i: usize = first + 1;
        while i <= last
            invariant
                first + 1 <= i <= last + 1,
                last < bins.len(),
                costs.len() == i - (first + 1),
                binned(bins@) <= usize::MAX,
                forall|k: int|
                    0 <= k < costs.len() ==> cost_given(
                        arithmetic,
                        heuristic,
                        self.outer_aabb,
                        bins@,
                        first + 1 + k,
                        #[trigger] costs[k],
                    ),
            decreases last + 1 - i,
        {
            let left_bins = vstd::slice::slice_subrange(bins, 0, i);
            let right_bins = vstd::slice::slice_subrange(bins, i, bins.len());
            proof {
                lemma_binned_split(bins@, i as int);
                assert(bins@.subrange(0, i as int) =~= bins@.take(i as int));
                assert(bins@.subrange(i as int, bins.len() as int) =~= bins@.skip(i as int));
            }
            let left_aabb = InterimNode::enclose_bins(left_bins);
            let left_count = InterimNode::count_binned(left_bins);
            let right_aabb = InterimNode::enclose_bins(right_bins);
            let right_count = InterimNode::count_binned(right_bins);

            let left_cost = heuristic.aabb_cost(&self.outer_aabb, &left_aabb, left_count);
            let right_cost = heuristic.aabb_cost(&self.outer_aabb, &right_aabb, right_count);
            let cost = arithmetic.sum(left_cost, right_cost);
            let ghost priced_before = costs@;
            costs.push(cost);
            proof {
                assert(cost_given_with(
                    arithmetic,
                    heuristic,
                    self.outer_aabb,
                    bins@,
                    i as int,
                    (left_count, left_cost, right_count, right_cost),
                    cost,
                ));
                assert forall|k: int| 0 <= k < costs.len() implies cost_given(
                    arithmetic,
                    heuristic,
                    self.outer_aabb,
                    bins@,
                    first + 1 + k,
                    #[trigger] costs[k],
                ) by {
                    if k < priced_before.len() {
                        assert(costs[k] == priced_before[k]);
                    }
                }
            }
            i += 1;
        }
        let best = cheapest(costs.as_slice());
        let r = (first + 1 + best, costs[best]);
        proof {
            assert(is_cheapest_split(bins@, first as int, last as int, costs@, r));
            assert(is_cheapest_split_by(
                arithmetic,
                heuristic,
                self.outer_aabb,
                bins@,
                first as int,
                last as int,
                costs@,
                r,
            ));
        }
        r
    }

    /// Considers the splits along one axis: puts the triangles into 64 bins
    /// by their barycenter, finds the cheapest split of the bins, and holds it
    /// against the best split so far, which it replaces where it is strictly
    /// cheaper. An axis along which fewer than two bins hold a triangle offers
    /// nothing. A split is an axis, a coordinate and a cost.
    pub fn consider_axis<A: Arithmetic, H: Heuristic>(
        &self,
        arithmetic: &A,
        heuristic: &H,
        axis: Axis,
        best: Option<(Axis, u32, u32)>,
    ) -> (r: Option<(Axis, u32, u32)>)
        ensures
            considered(arithmetic, heuristic, *self, axis, best, r),
    {
        let mut bins: Vec<Bin> = Vec::new();
        let mut b: usize = 0;
        while b < NUM_BINS
            invariant
                b <= NUM_BINS,
                bins.len() == b,
                forall|j: int| 0 <= j < bins.len() ==> (#[trigger] bins[j]).triangles@.len() == 0,
                all_bins_wf(bins@),
            decreases NUM_BINS - b,
        {
            bins.push(Bin::new());
            b += 1;
        }
        let ghost fresh = bins@;
        proof {
            lemma_binned_empty(bins@);
        }
        self.bin_triangles(arithmetic, &mut bins, axis);
        let ghost slots = choose|slots: Seq<int>|
            binned_by(
                arithmetic,
                self.triangles@,
                axis,
                self.inner_aabb.origin.coord(axis),
                self.inner_aabb.far.coord(axis),
                NUM_BINS,
                fresh,
                bins@,
                slots,
            );
        proof {
            assert forall|k: int| 0 <= k < bins.len() implies (#[trigger] bins[k]).triangles@
                == in_slot(self.triangles@, slots, k) by {
                assert(fresh[k].triangles@ =~= Seq::empty());
                assert(bins[k].triangles@ =~= in_slot(self.triangles@, slots, k));
            }
            assert(axis_binned(arithmetic, *self, axis, bins@, slots));
        }

        let offer = if InterimNode::are_bins_valid(bins.as_slice()) {
            Some(self.find_cheapest_split(arithmetic, heuristic, bins.as_slice()))
        } else {
            None
        };
        let r = match offer {
            Some((index, cost)) => {
                let wins = match best {
                    Some(b) => lane::lt(cost, b.2),
                    None => true,
                };
                if wins {
                    let (min, max) = self.inner_aabb_extent(axis);
                    let at = arithmetic.split_coordinate(bins.len(), min, max, index);
                    Some((axis, at, cost))
                } else {
                    best
                }
            },
            None => best,
        };
        proof {
            assert(considered_with(
                arithmetic,
                heuristic,
                *self,
                axis,
                best,
                r,
                bins@,
                slots,
                offer,
            ));
        }
        r
    }

    /// Splits the node if that would be beneficial according to the heuristic.
    ///
    /// A node of at most one triangle stays a leaf. So does a node whose
    /// triangles fall into a single bin on every axis, one whose cheapest split
    /// is not strictly cheaper than testing all its triangles, and one whose
    /// split would leave a side empty. Otherwise the triangles whose barycenter
    /// lies at or below the split coordinate go to the first child, the others
    /// to the second, and the node keeps none.
    pub fn split<A: Arithmetic, H: Heuristic>(&mut self, arithmetic: &A, heuristic: &H)
        requires
            old(self).children.len() == 0,
        ensures
            split_by(arithmetic, heuristic, *old(self), *final(self)),
            final(self).outer_aabb == old(self).outer_aabb,
            final(self).inner_aabb == old(self).inner_aabb,
            final(self).children.len() == 0 || final(self).children.len() == 2,
            final(self).children.len() == 0 ==> final(self).triangles@ == old(self).triangles@,
            old(self).triangles.len() <= 1 ==> final(self).children.len() == 0,
            final(self).children.len() == 2 ==> final(self).triangles.len() == 0 && is_split_of(
                old(self).triangles@,
                final(self).children[0],
                final(self).children[1],
            ),
    {
        // If there is only one triangle, splitting does not make sense.
        if self.triangles.len() <= 1 {
            return;
        }
        // Find the cheapest split.
        let x = self.consider_axis(arithmetic, heuristic, Axis::X, None);
        let y = self.consider_axis(arithmetic, heuristic, Axis::Y, x);
        let z = self.consider_axis(arithmetic, heuristic, Axis::Z, y);

        // No axis spreads the triangles over two bins.
        let (best_split_axis, best_split_at, best_split_cost) = match z {
            Some(best) => best,
            None => {
                assert(split_by_with(arithmetic, heuristic, *old(self), *self, x, y, z));
                return;
            },
        };

        // Do not split if the split node is not cheaper than the unsplit one.
        let no_split_cost = heuristic.tris_cost(self.triangles.len());
        assert(call_ensures(H::tris_cost, (heuristic, old(self).triangles.len()), no_split_cost));
        if !lane::lt(best_split_cost, no_split_cost) {
            assert(outcome(
                *old(self),
                *self,
                best_split_axis,
                best_split_at,
                best_split_cost,
                no_split_cost,
            ));
            assert(split_by_with(arithmetic, heuristic, *old(self), *self, x, y, z));
            return;
        }
        // Partition the triangles into two child nodes.
        let (left_tris, right_tris) = partition(&self.triangles, best_split_axis, best_split_at);

        // A split that leaves one side empty gains nothing.
        if left_tris.len() == 0 || right_tris.len() == 0 {
            assert(outcome(
                *old(self),
                *self,
                best_split_axis,
                best_split_at,
                best_split_cost,
                no_split_cost,
            ));
            assert(split_by_with(arithmetic, heuristic, *old(self), *self, x, y, z));
            return;
        }
        let left = InterimNode::from_triangle_refs(left_tris);
        let right = InterimNode::from_triangle_refs(right_tris);

        self.triangles = Vec::new();
        self.children.push(left);
        self.children.push(right);
        proof {
            assert(is_split_at(
                old(self).triangles@,
                self.children[0],
                self.children[1],
                best_split_axis,
                best_split_at,
            ));
            assert(outcome(
                *old(self),
                *self,
                best_split_axis,
                best_split_at,
                best_split_cost,
                no_split_cost,
            ));
            assert(split_by_with(arithmetic, heuristic, *old(self), *self, x, y, z));
        }
    }

    /// Recursively splits the node, constructing the tree.
    pub fn split_recursive<A: Arithmetic, H: Heuristic>(&mut self, arithmetic: &A, heuristic: &H)
        requires
            old(self).children.len() == 0,
            old(self).triangles.len() > 0,
        ensures
            grown(arithmetic, heuristic, *old(self), *final(self)),
            final(self).wf(),
            final(self).outer_aabb == old(self).outer_aabb,
            final(self).inner_aabb == old(self).inner_aabb,
            final(self).refs().to_multiset() == old(self).triangles@.to_multiset(),
            final(self).refs().len() == old(self).triangles.len(),
            final(self).nodes() + 1 == 2 * final(self).leaves(),
            final(self).leaves() <= old(self).triangles.len(),
            (old(self).bounded() && forall|i: int|
                0 <= i < old(self).triangles.len() ==> (
                #[trigger] old(self).triangles[i]).aabb.valid()) ==> final(self).bounded(),
        decreases old(self).triangles.len(),
    {
        self.split(arithmetic, heuristic);
        let ghost mid = *self;
        if self.children.len() == 2 {
            let ghost parent = old(self).triangles@;
            let ghost left = self.children[0].triangles@;
            let ghost right = self.children[1].triangles@;
            proof {
                let (axis, at) = choose|axis: Axis, at: u32|
                    is_split_at(parent, self.children[0], self.children[1], axis, at);
                lemma_split_sides(parent, axis, at);
            }
            let ghost numbers = forall|i: int|
                0 <= i < parent.len() ==> (#[trigger] parent[i]).aabb.valid();
            proof {
                if old(self).bounded() && numbers {
                    lemma_child_bounded(parent, left, old(self).outer_aabb);
                    lemma_child_bounded(parent, right, old(self).outer_aabb);
                }
            }
            self.children[0].split_recursive(arithmetic, heuristic);
            self.children[1].split_recursive(arithmetic, heuristic);
            proof {
                vstd::seq_lib::lemma_multiset_commutative(
                    self.children[0].refs(),
                    self.children[1].refs(),
                );
                assert(grown(arithmetic, heuristic, mid.children[0], self.children[0]));
                assert(grown(arithmetic, heuristic, mid.children[1], self.children[1]));
            }
        }
        proof {
            assert(split_by(arithmetic, heuristic, *old(self), mid));
            assert(grown(arithmetic, heuristic, *old(self), *self));
        }
    }

    /// Returns the number of triangle refs in the leaves.
    pub fn count_triangles(&self) -> (r: usize)
        requires
            self.refs().len() <= usize::MAX,
        ensures
            r == self.refs().len(),
        decreases self,
    {
        if self.children.len() == 2 {
            self.children[0].count_triangles() + self.children[1].count_triangles()
        } else {
            self.triangles.len()
        }
    }

    /// Returns the number of nodes in the tree, including self.
    pub fn count_nodes(&self) -> (r: usize)
        requires
            self.nodes() <= usize::MAX,
        ensures
            r == self.nodes(),
        decreases self,
    {
        if self.children.len() == 2 {
            1 + self.children[0].count_nodes() + self.children[1].count_nodes()
        } else {
            1
        }
    }

    /// Returns the number of leaf nodes in the tree.
    pub fn count_leaves(&self) -> (r: usize)
        requires
            self.leaves() <= usize::MAX,
        ensures
            r == self.leaves(),
        decreases self,
    {
        if self.children.len() == 2 {
            self.children[0].count_leaves() + self.children[1].count_leaves()
        } else {
            1
        }
    }
}

/// Where every occupied bin lies in `lo..hi`, at most `hi - lo` bins are occupied.
pub proof fn lemma_occupied_within(bins: Seq<Bin>, lo: int, hi: int)
    requires
        0 <= lo <= hi,
        forall|j: int|
            0 <= j < bins.len() && !(lo <= j < hi) ==> (#[trigger] bins[j]).triangles.len() == 0,
    ensures
        occupied(bins) <= hi - lo,
    decreases bins.len(),
{
    if bins.len() > 0 {
        let rest = bins.drop_last();
        let n = bins.len() - 1;
        assert forall|j: int| 0 <= j < rest.len() && !(lo <= j < hi) implies (
        #[trigger] rest[j]).triangles.len() == 0 by {
            assert(rest[j] == bins[j]);
        }
        if lo <= n < hi {
            lemma_occupied_within(rest, lo, n);
        } else {
            lemma_occupied_within(rest, lo, hi);
        }
    }
}

/// The triangles in the bins are those in the first `i` bins and those in the rest.
pub proof fn lemma_binned_split(bins: Seq<Bin>, i: int)
    requires
        0 <= i <= bins.len(),
    ensures
        binned(bins) == binned(bins.take(i)) + binned(bins.skip(i)),
    decreases bins.len(),
{
    if i == bins.len() {
        assert(bins.take(i) =~= bins);
        assert(bins.skip(i) =~= Seq::empty());
    } else {
        let rest = bins.drop_last();
        lemma_binned_split(rest, i);
        assert(rest.take(i) =~= bins.take(i));
        assert(bins.skip(i).drop_last() =~= rest.skip(i));
        assert(bins.skip(i).last() == bins.last());
    }
}

/// Bins without triangles hold no triangles.
pub proof fn lemma_binned_empty(bins: Seq<Bin>)
    requires
        forall|b: int| 0 <= b < bins.len() ==> (#[trigger] bins[b]).triangles.len() == 0,
    ensures
        binned(bins) == 0,
    decreases bins.len(),
{
    if bins.len() > 0 {
        let rest = bins.drop_last();
        assert forall|b: int| 0 <= b < rest.len() implies (#[trigger] rest[b]).triangles.len()
            == 0 by {
            assert(rest[b] == bins[b]);
        }
        lemma_binned_empty(rest);
    }
}

/// One more triangle in one bin is one more triangle in the bins.
pub proof fn lemma_binned_grows(before: Seq<Bin>, after: Seq<Bin>, index: int)
    requires
        before.len() == after.len(),
        0 <= index < before.len(),
        after[index].triangles.len() == before[index].triangles.len() + 1,
        forall|b: int| 0 <= b < before.len() && b != index ==> #[trigger] after[b] == before[b],
    ensures
        binned(after) == binned(before) + 1,
    decreases before.len(),
{
    let n = before.len() - 1;
    if index == n {
        assert(after.drop_last() =~= before.drop_last());
    } else {
        assert(after.last() == before.last());
        lemma_binned_grows(before.drop_last(), after.drop_last(), index);
    }
}

/// Where a box holds the valid boxes of some triangles, the leaf made of a part
/// of them is bounded, and the box holds the box of that leaf.
pub proof fn lemma_child_bounded(parent: Seq<TriangleRef>, child: Seq<TriangleRef>, outer: Aabb)
    requires
        child.len() > 0,
        forall|i: int| 0 <= i < parent.len() ==> (#[trigger] parent[i]).aabb.valid(),
        forall|i: int| 0 <= i < parent.len() ==> outer.contains((#[trigger] parent[i]).aabb),
        forall|j: int| 0 <= j < child.len() ==> parent.contains(#[trigger] child[j]),
    ensures
        outer.contains(Aabb::around_aabbs(boxes(child))),
        forall|j: int|
            0 <= j < child.len() ==> Aabb::around_aabbs(boxes(child)).contains(
                (#[trigger] child[j]).aabb,
            ),
        forall|j: int| 0 <= j < child.len() ==> (#[trigger] child[j]).aabb.valid(),
{
    let bs = boxes(child);
    assert forall|j: int| 0 <= j < bs.len() implies (#[trigger] bs[j]).valid() && outer.contains(
        bs[j],
    ) by {
        assert(parent.contains(child[j]));
        let i = choose|i: int| 0 <= i < parent.len() && parent[i] == child[j];
        assert(parent[i].aabb.valid());
    }
    crate::aabb::lemma_around_aabbs_contains(bs);
    lemma_hull_within(bs, outer);
    assert forall|j: int| 0 <= j < child.len() implies Aabb::around_aabbs(bs).contains(
        (#[trigger] child[j]).aabb,
    ) && child[j].aabb.valid() by {
        assert(bs[j] == child[j].aabb);
    }
}

/// A box that holds every box of a sequence holds the box around them.
pub proof fn lemma_hull_within(aabbs: Seq<Aabb>, outer: Aabb)
    requires
        aabbs.len() > 0,
        forall|i: int| 0 <= i < aabbs.len() ==> outer.contains(#[trigger] aabbs[i]),
    ensures
        outer.contains(Aabb::around_aabbs(aabbs)),
    decreases aabbs.len(),
{
    if aabbs.len() > 1 {
        let rest = aabbs.drop_last();
        assert forall|i: int| 0 <= i < rest.len() implies outer.contains(#[trigger] rest[i]) by {
            assert(rest[i] == aabbs[i]);
        }
        lemma_hull_within(rest, outer);
        assert(outer.contains(aabbs.last()));
    } else {
        assert(outer.contains(aabbs[0]));
    }
}

/// The two sides of a split hold the references between them, each once, and
/// nothing else.
pub proof fn lemma_split_sides(refs: Seq<TriangleRef>, axis: Axis, at: u32)
    ensures
        refs.filter(goes_left(axis, at)).len() + refs.filter(goes_right(axis, at)).len()
            == refs.len(),
        refs.filter(goes_left(axis, at)).to_multiset().add(
            refs.filter(goes_right(axis, at)).to_multiset(),
        ) == refs.to_multiset(),
        forall|j: int|
            0 <= j < refs.filter(goes_left(axis, at)).len() ==> refs.contains(
                #[trigger] refs.filter(goes_left(axis, at))[j],
            ),
        forall|j: int|
            0 <= j < refs.filter(goes_right(axis, at)).len() ==> refs.contains(
                #[trigger] refs.filter(goes_right(axis, at))[j],
            ),
    decreases refs.len(),
{
    let left = refs.filter(goes_left(axis, at));
    let right = refs.filter(goes_right(axis, at));
    if refs.len() == 0 {
        reveal(Seq::filter);
        assert(left =~= Seq::empty());
        assert(right =~= Seq::empty());
        assert(refs =~= Seq::empty());
        assert(Seq::<TriangleRef>::empty().to_multiset() =~= Multiset::empty()) by {
            broadcast use vstd::seq_lib::group_to_multiset_ensures;
        }
        assert(Multiset::<TriangleRef>::empty().add(Multiset::empty()) =~= Multiset::empty());
    } else {
        let rest = refs.drop_last();
        let last = refs.last();
        let rest_left = rest.filter(goes_left(axis, at));
        let rest_right = rest.filter(goes_right(axis, at));
        lemma_split_sides(rest, axis, at);
        assert(refs =~= rest.push(last));
        rest.lemma_filter_push(last, goes_left(axis, at));
        rest.lemma_filter_push(last, goes_right(axis, at));
        vstd::seq_lib::to_multiset_build(rest, last);
        vstd::seq_lib::to_multiset_build(rest_left, last);
        vstd::seq_lib::to_multiset_build(rest_right, last);
        assert(rest_left.to_multiset().insert(last).add(rest_right.to_multiset())
            =~= rest_left.to_multiset().add(rest_right.to_multiset()).insert(last));
        assert(rest_left.to_multiset().add(rest_right.to_multiset().insert(last))
            =~= rest_left.to_multiset().add(rest_right.to_multiset()).insert(last));
        assert(refs[refs.len() - 1] == last);
        assert forall|j: int| 0 <= j < left.len() implies refs.contains(#[trigger] left[j]) by {
            if j < rest_left.len() {
                assert(rest.contains(rest_left[j]));
                let i = choose|i: int| 0 <= i < rest.len() && rest[i] == rest_left[j];
                assert(refs[i] == left[j]);
            }
        }
        assert forall|j: int| 0 <= j < right.len() implies refs.contains(#[trigger] right[j]) by {
            if j < rest_right.len() {
                assert(rest.contains(rest_right[j]));
                let i = choose|i: int| 0 <= i < rest.len() && rest[i] == rest_right[j];
                assert(refs[i] == right[j]);
            }
        }
    }
}

} // verus!
