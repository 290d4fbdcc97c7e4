//! Implements a bounding volume hierarchy: a tree of boxes over triangles,
//! packed into two arrays.

pub mod builder;
pub mod traversal;

use vstd::prelude::*;
use crate::aabb::Aabb;
use crate::triangle::Triangle;

verus! {

/// One node in a bounding volume hierarchy.
#[derive(Copy, Clone, Debug, PartialEq, Eq, Structural)]
pub struct BvhNode {
    pub aabb: Aabb,
    /// For leaf nodes, the index of the first triangle, for internal nodes, the
    /// index of the first child. The second child is at `index + 1`.
    pub index: u32,
    /// For leaf nodes, the number of triangles, zero for internal nodes.
    pub len: u32,
}

/// A bounding volume hierarchy: the nodes in one array, siblings side by side,
/// and the triangles in another, those of a leaf side by side. The nodes 0 and
/// 1 are the two roots.
pub struct Bvh {
    nodes: Vec<BvhNode>,
    triangles: Vec<Triangle>,
}

/// Why no hierarchy was built.
#[derive(Copy, Clone, Debug, PartialEq, Eq, Structural)]
pub enum BuildError {
    /// There is no triangle to build a hierarchy of.
    NoTriangles,
    /// There are more triangles than a node can count.
    TooManyTriangles,
    /// The triangles were not split even once, so there are no two roots.
    NotSplit,
}

/// The most triangles that a hierarchy is built of.
pub const MAX_TRIANGLES: usize = 0x7fff_ffff;

/// Whether node `j` points at what exists: an internal node at a pair of
/// siblings further on in the array, the first at an even index; a leaf at a
/// range of triangles.
pub open spec fn slot_ok(nodes: Seq<BvhNode>, triangles: int, j: int) -> bool {
    let node = nodes[j];
    if node.len == 0 {
        &&& j < node.index
        &&& node.index % 2 == 0
        &&& node.index + 1 < nodes.len()
    } else {
        node.index + node.len <= triangles
    }
}

/// Whether the box of node `j` holds what the node points at: the boxes of its
/// two children, or the boxes of its triangles.
pub open spec fn slot_bounded(nodes: Seq<BvhNode>, triangles: Seq<Triangle>, j: int) -> bool {
    let node = nodes[j];
    if node.len == 0 {
        &&& node.aabb.contains(nodes[node.index as int].aabb)
        &&& node.aabb.contains(nodes[node.index + 1].aabb)
    } else {
        forall|t: int|
            node.index <= t < node.index + node.len ==> node.aabb.contains(
                (#[trigger] triangles[t]).aabb(),
            )
    }
}

/// Whether the two arrays make a hierarchy: the nodes come in pairs, there is
/// at least one pair, and every node points at what exists.
pub open spec fn arranged(nodes: Seq<BvhNode>, triangles: Seq<Triangle>) -> bool {
    &&& 2 <= nodes.len() <= u32::MAX
    &&& nodes.len() % 2 == 0
    &&& triangles.len() <= u32::MAX
    &&& forall|j: int| 0 <= j < nodes.len() ==> slot_ok(nodes, triangles.len() as int, j)
}

/// Whether every triangle is free of NaNs.
pub open spec fn all_numbers(triangles: Seq<Triangle>) -> bool {
    forall|t: int| 0 <= t < triangles.len() ==> (#[trigger] triangles[t]).is_number()
}

/// Whether every box holds what its node points at.
pub open spec fn boxed(nodes: Seq<BvhNode>, triangles: Seq<Triangle>) -> bool {
    forall|j: int| 0 <= j < nodes.len() ==> slot_bounded(nodes, triangles, j)
}

/// Whether triangle `t` lies in a leaf at or below node `i`.
pub open spec fn below(nodes: Seq<BvhNode>, i: int, t: int) -> bool
    decreases nodes.len() - i,
{
    if 0 <= i < nodes.len() {
        let node = nodes[i];
        if node.len > 0 {
            node.index <= t < node.index + node.len
        } else if i < node.index && node.index + 1 < nodes.len() {
            below(nodes, node.index as int, t) || below(nodes, node.index + 1, t)
        } else {
            false
        }
    } else {
        false
    }
}

/// The number of triangles in the leaves at or below node `i`.
pub open spec fn count(nodes: Seq<BvhNode>, i: int) -> nat
    decreases nodes.len() - i,
{
    if 0 <= i < nodes.len() {
        let node = nodes[i];
        if node.len > 0 {
            node.len as nat
        } else if i < node.index && node.index + 1 < nodes.len() {
            count(nodes, node.index as int) + count(nodes, node.index + 1)
        } else {
            0
        }
    } else {
        0
    }
}

/// Whether the leaves at or below node `i` hold, from left to right, the
/// triangles from `first` on, without a gap.
pub open spec fn tiled(nodes: Seq<BvhNode>, i: int, first: int) -> bool
    decreases nodes.len() - i,
{
    if 0 <= i < nodes.len() {
        let node = nodes[i];
        if node.len > 0 {
            node.index == first
        } else if i < node.index && node.index + 1 < nodes.len() {
            tiled(nodes, node.index as int, first) && tiled(
                nodes,
                node.index + 1,
                first + count(nodes, node.index as int),
            )
        } else {
            false
        }
    } else {
        false
    }
}

/// The number of nodes on the longest way from node `i` down to a leaf.
pub open spec fn height(nodes: Seq<BvhNode>, i: int) -> nat
    decreases nodes.len() - i,
{
    if 0 <= i < nodes.len() {
        let node = nodes[i];
        if node.len == 0 && i < node.index && node.index + 1 < nodes.len() {
            let left = height(nodes, node.index as int);
            let right = height(nodes, node.index + 1);
            if left < right {
                1 + right
            } else {
                1 + left
            }
        } else {
            1
        }
    } else {
        0
    }
}

/// The height of the higher of the two trees of a hierarchy.
pub open spec fn depth(nodes: Seq<BvhNode>) -> nat {
    if height(nodes, 0) < height(nodes, 1) {
        height(nodes, 1)
    } else {
        height(nodes, 0)
    }
}

/// Whether the leaves below the two roots hold all the triangles, each once:
/// those below the first root first.
pub open spec fn covered(nodes: Seq<BvhNode>, triangles: int) -> bool {
    &&& tiled(nodes, 0, 0)
    &&& tiled(nodes, 1, count(nodes, 0) as int)
    &&& count(nodes, 0) + count(nodes, 1) == triangles
}

impl BvhNode {
    /// Returns a zeroed node, to be filled later.
    pub fn new() -> (r: BvhNode)
        ensures
            r == (BvhNode { aabb: Aabb::empty(), index: 0, len: 0 }),
    {
        BvhNode { aabb: Aabb::zero(), index: 0, len: 0 }
    }
}

impl Bvh {
    #[verifier::type_invariant]
    spec fn inv(self) -> bool {
        arranged(self.nodes@, self.triangles@) && covered(
            self.nodes@,
            self.triangles@.len() as int,
        )
    }

    /// The nodes, in the order of the array.
    pub closed spec fn nodes(self) -> Seq<BvhNode> {
        self.nodes@
    }

    /// The triangles, in the order of the array.
    pub closed spec fn triangles(self) -> Seq<Triangle> {
        self.triangles@
    }

    /// Returns the number of nodes, which is even and at least two.
    pub fn num_nodes(&self) -> (r: usize)
        ensures
            r == self.nodes().len(),
            r >= 2,
            r % 2 == 0,
            arranged(self.nodes(), self.triangles()),
            covered(self.nodes(), self.triangles().len() as int),
    {
        proof {
            use_type_invariant(self);
        }
        self.nodes.len()
    }

    /// Returns the height of the tree below node `index`.
    fn height_of(&self, index: usize) -> (r: usize)
        requires
            index < self.nodes().len(),
        ensures
            r == height(self.nodes(), index as int),
            r <= self.nodes().len() - index,
        decreases self.nodes().len() - index,
    {
        proof {
            use_type_invariant(self);
            assert(slot_ok(self.nodes@, self.triangles@.len() as int, index as int));
        }
        let node = self.nodes[index];
        if node.len == 0 {
            let left = self.height_of(node.index as usize);
            let right = self.height_of(node.index as usize + 1);
            if left < right {
                1 + right
            } else {
                1 + left
            }
        } else {
            1
        }
    }

    /// Returns the height of the higher of the two trees: the number of nodes
    /// on the longest way from a root down to a leaf.
    pub fn depth(&self) -> (r: usize)
        ensures
            r == depth(self.nodes()),
            1 <= r <= self.nodes().len(),
    {
        proof {
            use_type_invariant(self);
        }
        let left = self.height_of(0);
        let right = self.height_of(1);
        if left < right {
            right
        } else {
            left
        }
    }

    /// Returns the number of triangles.
    pub fn num_triangles(&self) -> (r: usize)
        ensures
            r == self.triangles().len(),
    {
        self.triangles.len()
    }

    /// Returns node `index`.
    pub fn node(&self, index: usize) -> (r: Option<BvhNode>)
        ensures
            r == if index < self.nodes().len() {
                Some(self.nodes()[index as int])
            } else {
                None
            },
    {
        if index < self.nodes.len() {
            Some(self.nodes[index])
        } else {
            None
        }
    }

    /// Returns triangle `index`.
    pub fn triangle(&self, index: usize) -> (r: Option<Triangle>)
        ensures
            r == if index < self.triangles().len() {
                Some(self.triangles()[index as int])
            } else {
                None
            },
    {
        if index < self.triangles.len() {
            Some(self.triangles[index])
        } else {
            None
        }
    }
}

/// In a hierarchy the nodes come in pairs, and the two children of an internal
/// node are one such pair: siblings side by side, further on in the array.
pub proof fn lemma_siblings(nodes: Seq<BvhNode>, triangles: Seq<Triangle>, i: int)
    requires
        arranged(nodes, triangles),
        0 <= i < nodes.len(),
        nodes[i].len == 0,
    ensures
        nodes.len() % 2 == 0,
        nodes[i].index % 2 == 0,
        i < nodes[i].index,
        nodes[i].index + 1 < nodes.len(),
{
    assert(slot_ok(nodes, triangles.len() as int, i));
}

/// In a hierarchy whose boxes hold what their nodes point at, the box of a
/// node holds the box of every triangle in the leaves below it.
pub proof fn lemma_ancestors_hold_triangles(
    nodes: Seq<BvhNode>,
    triangles: Seq<Triangle>,
    i: int,
    t: int,
)
    requires
        arranged(nodes, triangles),
        boxed(nodes, triangles),
        0 <= i < nodes.len(),
        below(nodes, i, t),
    ensures
        0 <= t < triangles.len(),
        nodes[i].aabb.contains(triangles[t].aabb()),
    decreases nodes.len() - i,
{
    let node = nodes[i];
    assert(slot_ok(nodes, triangles.len() as int, i));
    assert(slot_bounded(nodes, triangles, i));
    if node.len == 0 {
        if below(nodes, node.index as int, t) {
            lemma_ancestors_hold_triangles(nodes, triangles, node.index as int, t);
        } else {
            lemma_ancestors_hold_triangles(nodes, triangles, node.index + 1, t);
        }
    }
}

/// The triangles that the leaves below a node hold lie below that node.
pub proof fn lemma_tiled_below(nodes: Seq<BvhNode>, i: int, first: int, t: int)
    requires
        0 <= i < nodes.len(),
        tiled(nodes, i, first),
        first <= t < first + count(nodes, i),
    ensures
        below(nodes, i, t),
    decreases nodes.len() - i,
{
    let node = nodes[i];
    if node.len == 0 {
        let c = node.index as int;
        if t < first + count(nodes, c) {
            lemma_tiled_below(nodes, c, first, t);
        } else {
            lemma_tiled_below(nodes, c + 1, first + count(nodes, c), t);
        }
    }
}

/// In a hierarchy that covers its triangles, every triangle lies in a leaf
/// below one of the two roots.
pub proof fn lemma_roots_reach_all(nodes: Seq<BvhNode>, triangles: Seq<Triangle>, t: int)
    requires
        arranged(nodes, triangles),
        covered(nodes, triangles.len() as int),
        0 <= t < triangles.len(),
    ensures
        below(nodes, 0, t) || below(nodes, 1, t),
{
    if t < count(nodes, 0) {
        lemma_tiled_below(nodes, 0, 0, t);
    } else {
        lemma_tiled_below(nodes, 1, count(nodes, 0) as int, t);
    }
}

} // verus!
