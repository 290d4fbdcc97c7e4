//! How a hierarchy is built: the triangles are split top down into a tree,
//! and the tree is packed into the two arrays.

use vstd::prelude::*;
use crate::arithmetic::{Arithmetic, Heuristic};
use crate::bvh::{
    all_numbers, arranged, boxed, count, covered, slot_bounded, slot_ok, tiled, BuildError, Bvh,
    BvhNode, MAX_TRIANGLES,
};
use crate::interim::{InterimNode, TriangleRef};
use crate::triangle::Triangle;
use crate::wavefront::Mesh;

verus! {

/// The triangles that the references name, in order.
pub open spec fn picked(refs: Seq<TriangleRef>, source: Seq<Triangle>) -> Seq<Triangle> {
    refs.map_values(|r: TriangleRef| source[r.index as int])
}

/// Whether every reference names a triangle of `source` and carries its box.
pub open spec fn all_refer_to(refs: Seq<TriangleRef>, source: Seq<Triangle>) -> bool {
    forall|i: int| 0 <= i < refs.len() ==> (#[trigger] refs[i]).refers_to(source)
}

/// Whether the children of node `j`, if it has any, lie further on in the
/// array, before its end.
pub open spec fn points_on(nodes: Seq<BvhNode>, j: int) -> bool {
    nodes[j].len == 0 ==> j < nodes[j].index && nodes[j].index + 1 < nodes.len()
}

/// Whether node `i` of the array and the nodes below it are the tree: node
/// for node the same box, a leaf for a leaf with as many triangles, and the
/// two children of an internal node for its two children.
pub open spec fn shaped(nodes: Seq<BvhNode>, i: int, tree: InterimNode) -> bool
    decreases tree,
{
    &&& 0 <= i < nodes.len()
    &&& nodes[i].aabb == tree.outer_aabb
    &&& if tree.children.len() == 2 {
        &&& nodes[i].len == 0
        &&& i < nodes[i].index
        &&& nodes[i].index + 1 < nodes.len()
        &&& shaped(nodes, nodes[i].index as int, tree.children[0])
        &&& shaped(nodes, nodes[i].index + 1, tree.children[1])
    } else {
        nodes[i].len == tree.triangles.len()
    }
}

/// Whether `refs` describe the triangles of `source` to the builder, one after
/// the other: each with its index, its box, and its barycenter as the
/// arithmetic gives it.
pub open spec fn refs_given<A: Arithmetic>(
    arithmetic: &A,
    source: Seq<Triangle>,
    refs: Seq<TriangleRef>,
) -> bool {
    &&& refs.len() == source.len()
    &&& forall|i: int|
        0 <= i < refs.len() ==> {
            &&& (#[trigger] refs[i]).index == i
            &&& refs[i].aabb == source[i].aabb()
            &&& call_ensures(A::barycenter, (arithmetic, &source[i]), refs[i].barycenter)
        }
}

/// Whether `r` is the tree `root` packed into the two arrays: nothing where
/// the root was not split; else a hierarchy of one node less than the tree,
/// whose two roots are the children of the root, and whose triangles are those
/// of the leaves of the tree from left to right, each leaf with a range of its
/// own.
pub open spec fn packed_from(
    root: InterimNode,
    source: Seq<Triangle>,
    r: Result<Bvh, BuildError>,
) -> bool {
    &&& r is Ok <==> root.children.len() == 2
    &&& r is Err ==> r == Err::<Bvh, BuildError>(BuildError::NotSplit)
    &&& r is Ok ==> {
        let bvh = r->Ok_0;
        &&& arranged(bvh.nodes(), bvh.triangles())
        &&& bvh.nodes().len() == root.nodes() - 1
        &&& bvh.triangles() == picked(root.refs(), source)
        &&& bvh.nodes()[0].aabb == root.children[0].outer_aabb
        &&& bvh.nodes()[1].aabb == root.children[1].outer_aabb
        &&& shaped(bvh.nodes(), 0, root.children[0])
        &&& shaped(bvh.nodes(), 1, root.children[1])
        &&& covered(bvh.nodes(), bvh.triangles().len() as int)
        &&& (root.bounded() && all_refer_to(root.refs(), source)) ==> boxed(
            bvh.nodes(),
            bvh.triangles(),
        )
    }
}

/// Whether `r` is what is built of the triangles, where `leaf` is the leaf
/// that holds them all and `tree` the tree that grows of it.
pub open spec fn built_with<A: Arithmetic, H: Heuristic>(
    arithmetic: &A,
    heuristic: &H,
    source: Seq<Triangle>,
    leaf: InterimNode,
    tree: InterimNode,
    r: Result<Bvh, BuildError>,
) -> bool {
    &&& refs_given(arithmetic, source, leaf.triangles@)
    &&& leaf.is_leaf_of(leaf.triangles@)
    &&& crate::interim::grown(arithmetic, heuristic, leaf, tree)
    &&& packed_from(tree, source, r)
}

/// Whether `r` is what is built of the triangles: a leaf of all of them is
/// split top down until every node stays a leaf, and the tree is packed.
pub open spec fn built<A: Arithmetic, H: Heuristic>(
    arithmetic: &A,
    heuristic: &H,
    source: Seq<Triangle>,
    r: Result<Bvh, BuildError>,
) -> bool {
    exists|leaf: InterimNode, tree: InterimNode|
        built_with(arithmetic, heuristic, source, leaf, tree, r)
}

/// The triangles of the meshes, mesh after mesh, each with the material of its mesh.
pub open spec fn mesh_triangles(meshes: Seq<Mesh>) -> Seq<Triangle>
    decreases meshes.len(),
{
    if meshes.len() == 0 {
        Seq::empty()
    } else {
        mesh_triangles(meshes.drop_last()) + triangles_of(meshes.last())
    }
}

/// The triangles of one mesh, in order.
pub open spec fn triangles_of(mesh: Mesh) -> Seq<Triangle> {
    mesh.triangles@.map_values(
        |t: (u32, u32, u32)|
            Triangle {
                v0: mesh.vertices[t.0 as int],
                v1: mesh.vertices[t.1 as int],
                v2: mesh.vertices[t.2 as int],
                material: mesh.material,
            },
    )
}

impl InterimNode {
    /// Converts the interim representation that was useful for building the
    /// tree into a representation that is optimized for traversing it.
    ///
    /// The node goes into the slot `into_index`, which exists already. The two
    /// children of an internal node get two new slots side by side at the end
    /// of `nodes`; the triangles of a leaf are appended to `sorted_triangles`.
    pub fn crystallize(
        &self,
        source_triangles: &[Triangle],
        nodes: &mut Vec<BvhNode>,
        sorted_triangles: &mut Vec<Triangle>,
        into_index: usize,
    )
        requires
            self.wf(),
            forall|i: int|
                0 <= i < self.refs().len() ==> (#[trigger] self.refs()[i]).index
                    < source_triangles.len(),
            old(nodes).len() % 2 == 0,
            into_index < old(nodes).len(),
            old(nodes).len() + self.nodes() - 1 <= u32::MAX,
            old(sorted_triangles).len() + self.refs().len() <= u32::MAX,
        ensures
            final(nodes).len() == old(nodes).len() + self.nodes() - 1,
            final(nodes).len() % 2 == 0,
            final(sorted_triangles)@ == old(sorted_triangles)@ + picked(
                self.refs(),
                source_triangles@,
            ),
            forall|j: int|
                0 <= j < old(nodes).len() && j != into_index ==> #[trigger] final(nodes)[j]
                    == old(nodes)[j],
            final(nodes)[into_index as int].aabb == self.outer_aabb,
            final(nodes)[into_index as int].len == 0 ==> old(nodes).len()
                <= final(nodes)[into_index as int].index,
            count(final(nodes)@, into_index as int) == self.refs().len(),
            tiled(final(nodes)@, into_index as int, old(sorted_triangles)@.len() as int),
            shaped(final(nodes)@, into_index as int, *self),
            forall|j: int|
                (j == into_index || old(nodes).len() <= j < final(nodes).len()) ==> slot_ok(
                    final(nodes)@,
                    final(sorted_triangles)@.len() as int,
                    j,
                ),
            (self.bounded() && all_refer_to(self.refs(), source_triangles@)) ==> forall|j: int|
                (j == into_index || old(nodes).len() <= j < final(nodes).len()) ==> slot_bounded(
                    final(nodes)@,
                    final(sorted_triangles)@,
                    j,
                ),
        decreases self,
    {
        proof {
            lemma_tree_size(*self);
        }
        if self.triangles.is_empty() {
            // This is an internal node.
            proof {
                lemma_tree_size(self.children[0]);
                lemma_tree_size(self.children[1]);
                let left = self.children[0].refs();
                let right = self.children[1].refs();
                assert forall|i: int| 0 <= i < left.len() implies (#[trigger] left[i]).index
                    < source_triangles.len() by {
                    assert(self.refs()[i] == left[i]);
                }
                assert forall|i: int| 0 <= i < right.len() implies (#[trigger] right[i]).index
                    < source_triangles.len() by {
                    assert(self.refs()[left.len() + i] == right[i]);
                }
            }

            // Allocate two new nodes for the children.
            let child_index = nodes.len();
            nodes.push(BvhNode::new());
            nodes.push(BvhNode::new());

            // Recursively crystallize the child nodes.
            self.children[0].crystallize(source_triangles, nodes, sorted_triangles, child_index);
            let ghost nodes_mid = nodes@;
            let ghost sorted_mid = sorted_triangles@;
            self.children[1].crystallize(
                source_triangles,
                nodes,
                sorted_triangles,
                child_index + 1,
            );
            let ghost nodes_late = nodes@;

            nodes.set(
                into_index,
                BvhNode { aabb: self.outer_aabb, index: child_index as u32, len: 0 },
            );
            proof {
                let left = self.children[0].refs();
                let right = self.children[1].refs();
                let source = source_triangles@;
                assert(picked(self.refs(), source) =~= picked(left, source) + picked(
                    right,
                    source,
                ));
                assert(sorted_triangles@ =~= old(sorted_triangles)@ + picked(
                    self.refs(),
                    source,
                ));
                let total = sorted_triangles@.len() as int;
                assert forall|j: int|
                    (j == into_index || old(nodes).len() <= j < nodes.len()) implies slot_ok(
                    nodes@,
                    total,
                    j,
                ) by {
                    if j == into_index {
                    } else if j == child_index + 1 || j >= nodes_mid.len() {
                        assert(slot_ok(nodes_late, total, j));
                    } else {
                        assert(slot_ok(nodes_mid, sorted_mid.len() as int, j));
                        assert(nodes_late[j] == nodes_mid[j]);
                    }
                }
                // What lies below the first child was not touched since.
                let c = child_index as int;
                let start = old(sorted_triangles)@.len() as int;
                assert forall|j: int| c + 2 <= j < nodes_mid.len() implies points_on(
                    nodes_mid,
                    j,
                ) by {
                    assert(slot_ok(nodes_mid, sorted_mid.len() as int, j));
                }
                assert(points_on(nodes_mid, c)) by {
                    assert(slot_ok(nodes_mid, sorted_mid.len() as int, c));
                }
                lemma_subtree_frame(nodes_mid, nodes_late, c, c + 2, start);
                lemma_shaped_frame(nodes_mid, nodes_late, c, c + 2, self.children[0]);
                assert forall|j: int| c <= j < nodes_late.len() implies points_on(
                    nodes_late,
                    j,
                ) by {
                    assert(slot_ok(nodes@, total, j));
                    assert(nodes@[j] == nodes_late[j]);
                }
                lemma_subtree_frame(nodes_late, nodes@, c, c, start);
                lemma_subtree_frame(nodes_late, nodes@, c + 1, c, start + left.len());
                lemma_shaped_frame(nodes_late, nodes@, c, c, self.children[0]);
                lemma_shaped_frame(nodes_late, nodes@, c + 1, c, self.children[1]);
                if self.bounded() && all_refer_to(self.refs(), source) {
                    assert(all_refer_to(left, source)) by {
                        assert forall|i: int| 0 <= i < left.len() implies (
                        #[trigger] left[i]).refers_to(source) by {
                            assert(self.refs()[i] == left[i]);
                        }
                    }
                    assert(all_refer_to(right, source)) by {
                        assert forall|i: int| 0 <= i < right.len() implies (
                        #[trigger] right[i]).refers_to(source) by {
                            assert(self.refs()[left.len() + i] == right[i]);
                        }
                    }
                    assert forall|j: int|
                        (j == into_index || old(nodes).len() <= j
                            < nodes.len()) implies slot_bounded(nodes@, sorted_triangles@, j) by {
                        if j == into_index {
                            assert(nodes_late[child_index as int] == nodes_mid[child_index as int]);
                            assert(nodes@[child_index as int].aabb == self.children[0].outer_aabb);
                            assert(nodes@[child_index + 1].aabb == self.children[1].outer_aabb);
                        } else if j == child_index + 1 || j >= nodes_mid.len() {
                            assert(slot_bounded(nodes_late, sorted_triangles@, j));
                            assert(slot_ok(nodes_late, total, j));
                            assert(nodes@[j] == nodes_late[j]);
                            let node = nodes_late[j];
                            if node.len == 0 {
                                assert(nodes@[node.index as int] == nodes_late[node.index as int]);
                                assert(nodes@[node.index + 1] == nodes_late[node.index + 1]);
                            }
                        } else {
                            assert(slot_bounded(nodes_mid, sorted_mid, j));
                            assert(slot_ok(nodes_mid, sorted_mid.len() as int, j));
                            assert(nodes_late[j] == nodes_mid[j]);
                            assert(nodes@[j] == nodes_late[j]);
                            let node = nodes_mid[j];
                            if node.len == 0 {
                                assert(nodes_late[node.index as int]
                                    == nodes_mid[node.index as int]);
                                assert(nodes_late[node.index + 1] == nodes_mid[node.index + 1]);
                                assert(nodes@[node.index as int] == nodes_late[node.index as int]);
                                assert(nodes@[node.index + 1] == nodes_late[node.index + 1]);
                            } else {
                                assert forall|t: int|
                                    node.index <= t < node.index + node.len implies node.aabb.contains(
                                    (#[trigger] sorted_triangles@[t]).aabb(),
                                ) by {
                                    assert(sorted_triangles@[t] == sorted_mid[t]);
                                }
                            }
                        }
                    }
                }
            }
        } else {
            // This is a leaf node.
            let first = sorted_triangles.len();
            nodes.set(
                into_index,
                BvhNode {
                    aabb: self.outer_aabb,
                    index: first as u32,
                    len: self.triangles.len() as u32,
                },
            );

            // Copy the triangles into the triangle buffer.
            let mut i: usize = 0;
            while i < self.triangles.len()
                invariant
                    i <= self.triangles.len(),
                    self.children.len() == 0,
                    first + self.triangles.len() <= u32::MAX,
                    forall|k: int|
                        0 <= k < self.triangles.len() ==> (#[trigger] self.triangles[k]).index
                            < source_triangles.len(),
                    sorted_triangles@ == old(sorted_triangles)@ + picked(
                        self.triangles@.take(i as int),
                        source_triangles@,
                    ),
                    first == old(sorted_triangles).len(),
                decreases self.triangles.len() - i,
            {
                let triref = self.triangles[i];
                sorted_triangles.push(source_triangles[triref.index]);
                proof {
                    let before = self.triangles@.take(i as int);
                    let after = self.triangles@.take(i + 1);
                    assert(after =~= before.push(triref));
                    assert(picked(after, source_triangles@) =~= picked(
                        before,
                        source_triangles@,
                    ).push(source_triangles@[triref.index as int]));
                }
                i += 1;
            }
            proof {
                assert(self.triangles@.take(self.triangles.len() as int) =~= self.triangles@);
                if self.bounded() && all_refer_to(self.refs(), source_triangles@) {
                    let node = nodes@[into_index as int];
                    assert forall|t: int|
                        node.index <= t < node.index + node.len implies node.aabb.contains(
                        (#[trigger] sorted_triangles@[t]).aabb(),
                    ) by {
                        let k = t - first;
                        assert(self.triangles[k].refers_to(source_triangles@));
                        assert(sorted_triangles@[t]
                            == source_triangles@[self.triangles[k].index as int]);
                    }
                }
            }
        }
    }
}

impl Bvh {
    /// Builds the hierarchy of the triangles.
    ///
    /// The triangles are split top down, as `InterimNode::split` decides with
    /// the help of the heuristic, and the tree is then packed into two arrays.
    /// All that is promised holds whatever the arithmetic and the heuristic
    /// return. The heuristic decides whether the triangles are split at all:
    /// where they are not, there are no two roots, and nothing is built.
    pub fn build<A: Arithmetic, H: Heuristic>(
        arithmetic: &A,
        heuristic: &H,
        source_triangles: &[Triangle],
    ) -> (r: Result<Bvh, BuildError>)
        ensures
            source_triangles.len() == 0 <==> r == Err::<Bvh, BuildError>(BuildError::NoTriangles),
            source_triangles.len() > MAX_TRIANGLES <==> r == Err::<Bvh, BuildError>(
                BuildError::TooManyTriangles,
            ),
            0 < source_triangles.len() <= MAX_TRIANGLES ==> built(
                arithmetic,
                heuristic,
                source_triangles@,
                r,
            ),
            source_triangles.len() == 1 ==> r is Err,
            r is Ok ==> {
                let bvh = r->Ok_0;
                &&& arranged(bvh.nodes(), bvh.triangles())
                &&& covered(bvh.nodes(), bvh.triangles().len() as int)
                &&& bvh.triangles().to_multiset() == source_triangles@.to_multiset()
                &&& bvh.nodes().len() + 2 <= 2 * source_triangles.len()
                &&& all_numbers(source_triangles@) ==> boxed(bvh.nodes(), bvh.triangles())
            },
    {
        if source_triangles.len() == 0 {
            return Err(BuildError::NoTriangles);
        }
        if source_triangles.len() > MAX_TRIANGLES {
            return Err(BuildError::TooManyTriangles);
        }
        let ghost source = source_triangles@;

        // Actual triangles are not important to the builder, only their boxes
        // and barycenters are.
        let mut trirefs: Vec<TriangleRef> = Vec::new();
        let mut i: usize = 0;
        while i < source_triangles.len()
            invariant
                i <= source_triangles.len(),
                trirefs.len() == i,
                forall|k: int|
                    0 <= k < i ==> (#[trigger] trirefs[k]).index == k && trirefs[k].aabb
                        == source_triangles[k].aabb(),
                forall|k: int|
                    0 <= k < i ==> call_ensures(
                        A::barycenter,
                        (arithmetic, &source_triangles@[k]),
                        (#[trigger] trirefs[k]).barycenter,
                    ),
            decreases source_triangles.len() - i,
        {
            trirefs.push(TriangleRef::from_triangle(arithmetic, i, &source_triangles[i]));
            i += 1;
        }
        let ghost initial = trirefs@;
        proof {
            assert(picked(initial, source) =~= source);
            if all_numbers(source) {
                assert forall|k: int| 0 <= k < initial.len() implies (
                #[trigger] initial[k]).aabb.valid() by {
                    assert(source[k].is_number());
                    lemma_triangle_box(source[k]);
                }
            }
        }

        let mut root = InterimNode::from_triangle_refs(trirefs);
        let ghost leaf = root;
        assert(refs_given(arithmetic, source, leaf.triangles@));

        // Build the tree of interim nodes.
        root.split_recursive(arithmetic, heuristic);
        proof {
            lemma_same_members(root.refs(), initial);
            lemma_picked_multiset(root.refs(), initial, source);
            lemma_tree_size(root);
            assert forall|k: int| 0 <= k < root.refs().len() implies (
            #[trigger] root.refs()[k]).refers_to(source) by {
                let x = root.refs()[k];
                assert(initial.contains(x));
                let j = choose|j: int| 0 <= j < initial.len() && initial[j] == x;
                assert(initial[j].index == j);
            }
        }

        // Write the tree of interim nodes that is all over the heap currently,
        // neatly packed into two buffers.
        let r = Bvh::from_interim(&root, source_triangles);
        assert(built_with(arithmetic, heuristic, source, leaf, root, r));
        r
    }

    /// Builds the hierarchy of the triangles of the meshes.
    pub fn from_meshes<A: Arithmetic, H: Heuristic>(
        arithmetic: &A,
        heuristic: &H,
        meshes: &[Mesh],
    ) -> (r: Result<Bvh, BuildError>)
        requires
            forall|m: int| 0 <= m < meshes.len() ==> (#[trigger] meshes[m]).wf(),
        ensures
            mesh_triangles(meshes@).len() == 0 <==> r == Err::<Bvh, BuildError>(
                BuildError::NoTriangles,
            ),
            mesh_triangles(meshes@).len() > MAX_TRIANGLES <==> r == Err::<Bvh, BuildError>(
                BuildError::TooManyTriangles,
            ),
            0 < mesh_triangles(meshes@).len() <= MAX_TRIANGLES ==> built(
                arithmetic,
                heuristic,
                mesh_triangles(meshes@),
                r,
            ),
            r is Ok ==> {
                let bvh = r->Ok_0;
                &&& arranged(bvh.nodes(), bvh.triangles())
                &&& covered(bvh.nodes(), bvh.triangles().len() as int)
                &&& bvh.triangles().to_multiset() == mesh_triangles(meshes@).to_multiset()
                &&& all_numbers(mesh_triangles(meshes@)) ==> boxed(bvh.nodes(), bvh.triangles())
            },
    {
        let mut triangles: Vec<Triangle> = Vec::new();
        let mut m: usize = 0;
        while m < meshes.len()
            invariant
                m <= meshes.len(),
                triangles@ == mesh_triangles(meshes@.take(m as int)),
                forall|k: int| 0 <= k < meshes.len() ==> (#[trigger] meshes[k]).wf(),
            decreases meshes.len() - m,
        {
            let mesh = &meshes[m];
            let ghost before = triangles@;
            let mut i: usize = 0;
            while i < mesh.triangles.len()
                invariant
                    i <= mesh.triangles.len(),
                    mesh.wf(),
                    triangles@ == before + triangles_of(*mesh).take(i as int),
                decreases mesh.triangles.len() - i,
            {
                let (i1, i2, i3) = mesh.triangles[i];
                assert(mesh.triangles[i as int].0 < mesh.vertices.len());
                let v1 = mesh.vertices[i1 as usize];
                let v2 = mesh.vertices[i2 as usize];
                let v3 = mesh.vertices[i3 as usize];
                triangles.push(Triangle::new(v1, v2, v3, mesh.material));
                proof {
                    let all = triangles_of(*mesh);
                    assert(all.take(i + 1) =~= all.take(i as int).push(all[i as int]));
                    assert(triangles@ =~= before + all.take(i + 1));
                }
                i += 1;
            }
            proof {
                let all = triangles_of(*mesh);
                assert(all.take(mesh.triangles.len() as int) =~= all);
                assert(meshes@.take(m + 1).drop_last() =~= meshes@.take(m as int));
                assert(meshes@.take(m + 1).last() == meshes@[m as int]);
            }
            m += 1;
        }
        assert(meshes@.take(meshes.len() as int) =~= meshes@);
        Bvh::build(arithmetic, heuristic, triangles.as_slice())
    }

    /// Packs a tree into the two arrays. The children of the root become the
    /// two roots of the hierarchy, so a root that was not split yields none.
    pub fn from_interim(root: &InterimNode, source_triangles: &[Triangle]) -> (r: Result<
        Bvh,
        BuildError,
    >)
        requires
            root.wf(),
            root.refs().len() <= MAX_TRIANGLES,
            forall|i: int|
                0 <= i < root.refs().len() ==> (#[trigger] root.refs()[i]).index
                    < source_triangles.len(),
        ensures
            packed_from(*root, source_triangles@, r),
            r is Ok <==> root.children.len() == 2,
            r is Err ==> r == Err::<Bvh, BuildError>(BuildError::NotSplit),
            r is Ok ==> {
                let bvh = r->Ok_0;
                &&& arranged(bvh.nodes(), bvh.triangles())
                &&& bvh.nodes().len() == root.nodes() - 1
                &&& bvh.triangles() == picked(root.refs(), source_triangles@)
                &&& bvh.nodes()[0].aabb == root.children[0].outer_aabb
                &&& bvh.nodes()[1].aabb == root.children[1].outer_aabb
                &&& covered(bvh.nodes(), bvh.triangles().len() as int)
                &&& (root.bounded() && all_refer_to(root.refs(), source_triangles@)) ==> boxed(
                    bvh.nodes(),
                    bvh.triangles(),
                )
            },
    {
        // There should be at least one split, because crystallized nodes are
        // stored in pairs. There is no single root, there are two roots.
        if root.children.len() != 2 {
            return Err(BuildError::NotSplit);
        }
        proof {
            lemma_tree_size(*root);
            lemma_tree_size(root.children[0]);
            lemma_tree_size(root.children[1]);
        }
        let left = &root.children[0];
        let right = &root.children[1];
        let ghost left_refs = left.refs();
        let ghost right_refs = right.refs();
        let ghost source = source_triangles@;
        proof {
            assert forall|i: int| 0 <= i < left_refs.len() implies (#[trigger] left_refs[i]).index
                < source.len() by {
                assert(root.refs()[i] == left_refs[i]);
            }
            assert forall|i: int| 0 <= i < right_refs.len() implies (
            #[trigger] right_refs[i]).index < source.len() by {
                assert(root.refs()[left_refs.len() + i] == right_refs[i]);
            }
        }

        // One buffer for the nodes and one for the triangles. The source
        // triangles are reordered, so that those of a leaf lie side by side.
        let mut nodes: Vec<BvhNode> = Vec::new();
        let mut sorted_triangles: Vec<Triangle> = Vec::new();
        nodes.push(BvhNode::new());
        nodes.push(BvhNode::new());
        left.crystallize(source_triangles, &mut nodes, &mut sorted_triangles, 0);
        let ghost nodes_mid = nodes@;
        let ghost sorted_mid = sorted_triangles@;
        right.crystallize(source_triangles, &mut nodes, &mut sorted_triangles, 1);
        proof {
            assert(picked(root.refs(), source) =~= picked(left_refs, source) + picked(
                right_refs,
                source,
            ));
            assert(sorted_triangles@ =~= picked(root.refs(), source));
            let total = sorted_triangles@.len() as int;
            assert forall|j: int| 0 <= j < nodes.len() implies slot_ok(nodes@, total, j) by {
                if j == 1 || j >= nodes_mid.len() {
                } else {
                    assert(slot_ok(nodes_mid, sorted_mid.len() as int, j));
                    assert(nodes@[j] == nodes_mid[j]);
                }
            }
            assert forall|j: int| 2 <= j < nodes_mid.len() implies points_on(nodes_mid, j) by {
                assert(slot_ok(nodes_mid, sorted_mid.len() as int, j));
            }
            assert(points_on(nodes_mid, 0)) by {
                assert(slot_ok(nodes_mid, sorted_mid.len() as int, 0));
            }
            lemma_subtree_frame(nodes_mid, nodes@, 0, 2, 0);
            lemma_shaped_frame(nodes_mid, nodes@, 0, 2, root.children[0]);
            assert(covered(nodes@, total));
            if root.bounded() && all_refer_to(root.refs(), source) {
                assert(all_refer_to(left_refs, source)) by {
                    assert forall|i: int| 0 <= i < left_refs.len() implies (
                    #[trigger] left_refs[i]).refers_to(source) by {
                        assert(root.refs()[i] == left_refs[i]);
                    }
                }
                assert(all_refer_to(right_refs, source)) by {
                    assert forall|i: int| 0 <= i < right_refs.len() implies (
                    #[trigger] right_refs[i]).refers_to(source) by {
                        assert(root.refs()[left_refs.len() + i] == right_refs[i]);
                    }
                }
                assert forall|j: int| 0 <= j < nodes.len() implies slot_bounded(
                    nodes@,
                    sorted_triangles@,
                    j,
                ) by {
                    if j == 1 || j >= nodes_mid.len() {
                    } else {
                        assert(slot_bounded(nodes_mid, sorted_mid, j));
                        assert(slot_ok(nodes_mid, sorted_mid.len() as int, j));
                        assert(nodes@[j] == nodes_mid[j]);
                        let node = nodes_mid[j];
                        if node.len == 0 {
                            assert(nodes@[node.index as int] == nodes_mid[node.index as int]);
                            assert(nodes@[node.index + 1] == nodes_mid[node.index + 1]);
                        } else {
                            assert forall|t: int|
                                node.index <= t < node.index + node.len implies node.aabb.contains(
                                (#[trigger] sorted_triangles@[t]).aabb(),
                            ) by {
                                assert(sorted_triangles@[t] == sorted_mid[t]);
                            }
                        }
                    }
                }
            }
        }
        Ok(Bvh { nodes, triangles: sorted_triangles })
    }
}

/// A well-formed tree has one node less than twice its leaves, and no more
/// leaves than triangles.
pub proof fn lemma_tree_size(node: InterimNode)
    requires
        node.wf(),
    ensures
        node.nodes() + 1 == 2 * node.leaves(),
        node.leaves() <= node.refs().len(),
    decreases node,
{
    if node.children.len() == 2 {
        lemma_tree_size(node.children[0]);
        lemma_tree_size(node.children[1]);
    }
}

/// What lies below a node depends on the node and on the nodes from `lo` on
/// alone, where the children of the node lie there.
/// A node and the nodes below it stay the tree that they are where the node
/// and the nodes from `lo` on stay, and the children of the node lie there.
pub proof fn lemma_shaped_frame(
    a: Seq<BvhNode>,
    b: Seq<BvhNode>,
    i: int,
    lo: int,
    tree: InterimNode,
)
    requires
        tree.wf(),
        a.len() <= b.len(),
        0 <= lo,
        shaped(a, i, tree),
        b[i] == a[i],
        forall|j: int| lo <= j < a.len() ==> #[trigger] b[j] == a[j],
        a[i].len == 0 ==> lo <= a[i].index,
    ensures
        shaped(b, i, tree),
    decreases tree,
{
    if tree.children.len() == 2 {
        let c = a[i].index as int;
        let (left, right) = (tree.children[0], tree.children[1]);
        assert(left.wf() && right.wf());
        assert(shaped(a, c, left) && shaped(a, c + 1, right));
        assert(left.children.len() != 2 ==> left.children.len() == 0 && a[c].len > 0);
        assert(right.children.len() != 2 ==> right.children.len() == 0 && a[c + 1].len > 0);
        lemma_shaped_frame(a, b, c, c, left);
        lemma_shaped_frame(a, b, c + 1, c + 1, right);
    }
}

pub proof fn lemma_subtree_frame(a: Seq<BvhNode>, b: Seq<BvhNode>, i: int, lo: int, first: int)
    requires
        a.len() <= b.len(),
        0 <= i < a.len(),
        0 <= lo,
        b[i] == a[i],
        forall|j: int| lo <= j < a.len() ==> #[trigger] b[j] == a[j],
        points_on(a, i),
        forall|j: int| lo <= j < a.len() ==> points_on(a, j),
        a[i].len == 0 ==> lo <= a[i].index,
    ensures
        count(b, i) == count(a, i),
        tiled(b, i, first) == tiled(a, i, first),
    decreases a.len() - i,
{
    let node = a[i];
    if node.len == 0 {
        let c = node.index as int;
        assert(points_on(a, c));
        assert(points_on(a, c + 1));
        lemma_subtree_frame(a, b, c, c, first);
        lemma_subtree_frame(a, b, c + 1, c + 1, first + count(a, c));
    }
}

/// Sequences with the same elements, each as often, name the same triangles,
/// each as often.
pub proof fn lemma_picked_multiset(a: Seq<TriangleRef>, b: Seq<TriangleRef>, source: Seq<Triangle>)
    requires
        a.to_multiset() == b.to_multiset(),
    ensures
        picked(a, source).to_multiset() == picked(b, source).to_multiset(),
    decreases a.len(),
{
    broadcast use vstd::seq_lib::group_to_multiset_ensures;

    vstd::seq_lib::to_multiset_len(a);
    vstd::seq_lib::to_multiset_len(b);
    if a.len() == 0 {
        assert(picked(a, source) =~= picked(b, source));
    } else {
        let x = a.last();
        assert(a[a.len() - 1] == x);
        assert(a.contains(x));
        assert(b.to_multiset().count(x) > 0);
        assert(b.contains(x));
        let i = choose|i: int| 0 <= i < b.len() && b[i] == x;
        let a1 = a.drop_last();
        let b1 = b.remove(i);
        assert(a.remove(a.len() - 1) =~= a1);
        assert(a1.to_multiset() == a.to_multiset().remove(x));
        assert(b1.to_multiset() == b.to_multiset().remove(x));
        lemma_picked_multiset(a1, b1, source);
        let pa = picked(a, source);
        let pb = picked(b, source);
        let y = source[x.index as int];
        assert(pa =~= picked(a1, source).push(y));
        assert(pb.remove(i) =~= picked(b1, source));
        assert(pb[i] == y);
        assert(pb.remove(i).to_multiset() == pb.to_multiset().remove(y));
        assert(pb.contains(y));
        assert(pb.to_multiset().count(y) > 0);
        assert(pb.to_multiset().remove(y).insert(y) =~= pb.to_multiset());
        assert(pa.to_multiset() =~= picked(a1, source).to_multiset().insert(y));
    }
}

/// Sequences with the same elements, each as often, have the same members.
pub proof fn lemma_same_members(a: Seq<TriangleRef>, b: Seq<TriangleRef>)
    requires
        a.to_multiset() == b.to_multiset(),
    ensures
        forall|i: int| 0 <= i < a.len() ==> b.contains(#[trigger] a[i]),
{
    broadcast use vstd::seq_lib::group_to_multiset_ensures;

    assert forall|i: int| 0 <= i < a.len() implies b.contains(#[trigger] a[i]) by {
        assert(a.contains(a[i]));
        assert(b.to_multiset().count(a[i]) > 0);
    }
}

/// The box around a triangle without NaNs is valid.
pub proof fn lemma_triangle_box(triangle: Triangle)
    requires
        triangle.is_number(),
    ensures
        triangle.aabb().valid(),
{
    let points = seq![triangle.v0, triangle.v1, triangle.v2];
    assert(points[0] == triangle.v0);
    assert(points[1] == triangle.v1);
    assert(points[2] == triangle.v2);
    crate::aabb::lemma_around_points_contains(points);
}

} // verus!
