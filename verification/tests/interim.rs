use convector::aabb::{Aabb, Slabs};
use convector::arithmetic::{Arithmetic, Bounce, Heuristic};
use convector::interim::{cheapest, partition, Bin, InterimNode, TriangleRef};
use convector::material::SMaterial;
use convector::ray::{MIntersection, MRay};
use convector::simd::{Mf32, Mi32};
use convector::triangle::{MTriangleHit, Triangle};
use convector::vector3::{Axis, MVector3, SVector3};

fn v(x: f32, y: f32, z: f32) -> SVector3 {
    SVector3::new(x.to_bits(), y.to_bits(), z.to_bits())
}

fn num(bits: u32) -> f32 {
    f32::from_bits(bits)
}

fn costs(c: &[f32]) -> Vec<u32> {
    c.iter().map(|x| x.to_bits()).collect()
}

/// A reference at `(x, y, z)` with a box of half a unit around it.
fn reference(index: usize, x: f32, y: f32, z: f32) -> TriangleRef {
    TriangleRef {
        aabb: Aabb::new(v(x - 0.5, y - 0.5, z - 0.5), v(x + 0.5, y + 0.5, z + 0.5)),
        barycenter: v(x, y, z),
        index: index,
    }
}

fn indices(refs: &[TriangleRef]) -> Vec<usize> {
    refs.iter().map(|r| r.index).collect()
}

/// Only what the builder asks for.
struct Builder;

impl Arithmetic for Builder {
    fn barycenter(&self, t: &Triangle) -> SVector3 {
        v(
            (num(t.v0.x) + num(t.v1.x) + num(t.v2.x)) / 3.0,
            (num(t.v0.y) + num(t.v1.y) + num(t.v2.y)) / 3.0,
            (num(t.v0.z) + num(t.v1.z) + num(t.v2.z)) / 3.0,
        )
    }

    fn bin_index(&self, bins: usize, min: u32, max: u32, coord: u32) -> usize {
        ((bins as f32) * (num(coord) - num(min)) / (num(max) - num(min))).floor() as usize
    }

    fn split_coordinate(&self, bins: usize, min: u32, max: u32, index: usize) -> u32 {
        (num(min) + (num(max) - num(min)) / (bins as f32) * (index as f32)).to_bits()
    }

    fn sum(&self, a: u32, b: u32) -> u32 {
        (num(a) + num(b)).to_bits()
    }

    fn slab_distances(&self, _: &Aabb, _: &MRay) -> Slabs {
        unreachable!()
    }

    fn triangle_hit(&self, _: &Triangle, _: &MRay) -> MTriangleHit {
        unreachable!()
    }

    fn point_at(&self, _: &MRay, _: Mf32) -> MVector3 {
        unreachable!()
    }

    fn less_epsilon(&self, _: Mf32) -> Mf32 {
        unreachable!()
    }

    fn screen_coords(&self, _: u32, _: u32, _: Mi32, _: Mi32, _: Mf32, _: Mf32) -> (Mf32, Mf32) {
        unreachable!()
    }

    fn diffuse_bounce(&self, _: MVector3, _: &MIntersection) -> Bounce {
        unreachable!()
    }

    fn modulate(&self, _: MVector3, _: MVector3) -> MVector3 {
        unreachable!()
    }

    fn sky_intensity(&self, _: MVector3) -> MVector3 {
        unreachable!()
    }

    fn debug_color(&self, _: u32, _: u32) -> MVector3 {
        unreachable!()
    }

    fn accumulate(&self, _: MVector3, _: MVector3) -> MVector3 {
        unreachable!()
    }

    fn average(&self, _: MVector3, _: u32) -> MVector3 {
        unreachable!()
    }

    fn quantize_color(&self, _: MVector3) -> (Mi32, Mi32, Mi32) {
        unreachable!()
    }

    fn quantize_surface(&self, _: (Mf32, Mf32), _: Mf32) -> (Mi32, Mi32, Mi32) {
        unreachable!()
    }
}

/// A box costs its number of triangles, squared: even splits are cheapest.
struct Balance {
    leaf: f32,
}

impl Heuristic for Balance {
    fn aabb_cost(&self, _: &Aabb, _: &Aabb, num_tris: usize) -> u32 {
        ((num_tris * num_tris) as f32).to_bits()
    }

    fn tris_cost(&self, num_tris: usize) -> u32 {
        (self.leaf * num_tris as f32).to_bits()
    }
}

#[test]
fn cheapest_is_the_first_that_none_is_less_than() {
    assert_eq!(cheapest(&costs(&[3.0])), 0);
    assert_eq!(cheapest(&costs(&[3.0, 2.0, 5.0])), 1);
    assert_eq!(cheapest(&costs(&[3.0, 2.0, 2.0, 1.0, 1.0])), 3);
    assert_eq!(cheapest(&costs(&[1.0, 2.0, 3.0])), 0);
    assert_eq!(cheapest(&costs(&[-1.0, -2.0, -3.0])), 2);
    assert_eq!(cheapest(&costs(&[0.0, -0.0])), 0);
    assert_eq!(cheapest(&costs(&[f32::INFINITY, 1.0e30, f32::NEG_INFINITY])), 2);
    // A NaN is never less, and nothing is less than a NaN.
    assert_eq!(cheapest(&costs(&[2.0, f32::NAN, 1.0])), 2);
    assert_eq!(cheapest(&costs(&[f32::NAN, 1.0, 0.0])), 0);
}

#[test]
fn partition_goes_by_the_coordinate() {
    let refs = vec![
        reference(0, 1.0, 9.0, 0.0),
        reference(1, 3.0, 8.0, 0.0),
        reference(2, 2.0, 7.0, 0.0),
        reference(3, 0.0, 6.0, 0.0),
        reference(4, f32::NAN, 5.0, 0.0),
        reference(5, 2.5, 4.0, 0.0),
    ];
    let (left, right) = partition(&refs, Axis::X, 2.0_f32.to_bits());
    assert_eq!(indices(&left), vec![0, 2, 3]);
    assert_eq!(indices(&right), vec![1, 4, 5]);
    let (left, right) = partition(&refs, Axis::Y, 6.5_f32.to_bits());
    assert_eq!(indices(&left), vec![3, 4, 5]);
    assert_eq!(indices(&right), vec![0, 1, 2]);
    let (left, right) = partition(&refs, Axis::Z, 0.0_f32.to_bits());
    assert_eq!(indices(&left), vec![0, 1, 2, 3, 4, 5]);
    assert!(right.is_empty());
    let (left, right) = partition(&refs, Axis::Z, f32::NAN.to_bits());
    assert!(left.is_empty());
    assert_eq!(right.len(), 6);
}

#[test]
fn bin_grows_its_box() {
    let mut bin = Bin::new();
    assert!(bin.triangles.is_empty());
    assert_eq!(bin.aabb, None);
    bin.push(reference(0, 0.0, 0.0, 0.0));
    assert_eq!(bin.aabb, Some(Aabb::new(v(-0.5, -0.5, -0.5), v(0.5, 0.5, 0.5))));
    bin.push(reference(1, 2.0, -1.0, 0.25));
    assert_eq!(bin.aabb, Some(Aabb::new(v(-0.5, -1.5, -0.5), v(2.5, 0.5, 0.75))));
    assert_eq!(indices(&bin.triangles), vec![0, 1]);
}

fn line(n: usize) -> Vec<TriangleRef> {
    (0..n).map(|i| reference(i, i as f32, 0.0, 0.0)).collect()
}

#[test]
fn a_node_of_references_has_both_boxes() {
    let node = InterimNode::from_triangle_refs(line(4));
    assert_eq!(node.outer_aabb, Aabb::new(v(-0.5, -0.5, -0.5), v(3.5, 0.5, 0.5)));
    assert_eq!(node.inner_aabb, Aabb::new(v(0.0, 0.0, 0.0), v(3.0, 0.0, 0.0)));
    assert!(node.children.is_empty());
    assert_eq!(indices(&node.triangles), vec![0, 1, 2, 3]);
    assert_eq!(node.inner_aabb_extent(Axis::X), (0.0_f32.to_bits(), 3.0_f32.to_bits()));
    assert_eq!(node.inner_aabb_extent(Axis::Y), (0.0_f32.to_bits(), 0.0_f32.to_bits()));
    assert_eq!((node.count_nodes(), node.count_leaves(), node.count_triangles()), (1, 1, 4));
}

#[test]
fn triangles_are_binned_by_their_barycenter() {
    let node = InterimNode::from_triangle_refs(line(9));
    let mut bins: Vec<Bin> = (0..64).map(|_| Bin::new()).collect();
    node.bin_triangles(&Builder, &mut bins, Axis::X);
    assert_eq!(bins.len(), 64);
    for (i, bin) in bins.iter().enumerate() {
        // Triangle k lies at k / 8 of the extent; the last one is clamped
        // into the last bin.
        let expected: Vec<usize> = (0..9).filter(|k| (8 * k).min(63) == i).collect();
        assert_eq!(indices(&bin.triangles), expected);
        assert_eq!(bin.aabb.is_some(), !expected.is_empty());
    }
    assert_eq!(InterimNode::count_binned(&bins), 9);
    assert_eq!(InterimNode::count_binned(&bins[..9]), 2);
    assert!(InterimNode::are_bins_valid(&bins));
    assert_eq!(InterimNode::occupied_range(&bins), (0, 63));
    assert_eq!(InterimNode::enclose_bins(&bins), node.outer_aabb);
    assert_eq!(InterimNode::enclose_bins(&bins[..9]), Aabb::new(v(-0.5, -0.5, -0.5), v(1.5, 0.5, 0.5)));

    // Along the other axes all the triangles fall into one bin: a quotient
    // of zeros is a NaN, and a NaN counts as bin 0.
    let mut bins: Vec<Bin> = (0..64).map(|_| Bin::new()).collect();
    node.bin_triangles(&Builder, &mut bins, Axis::Y);
    assert_eq!(bins.iter().filter(|b| !b.triangles.is_empty()).count(), 1);
    assert!(!InterimNode::are_bins_valid(&bins));
    let none: Vec<Bin> = (0..64).map(|_| Bin::new()).collect();
    assert!(!InterimNode::are_bins_valid(&none));
}

#[test]
fn the_cheapest_split_is_found_between_the_occupied_bins() {
    let node = InterimNode::from_triangle_refs(line(9));
    let mut bins: Vec<Bin> = (0..64).map(|_| Bin::new()).collect();
    node.bin_triangles(&Builder, &mut bins, Axis::X);
    // With four triangles to the left and five to the right the squares sum
    // to 41; bins 25 to 32 all split like that, and the first of them wins.
    let (index, cost) = node.find_cheapest_split(&Builder, &Balance { leaf: 100.0 }, &bins);
    assert_eq!((index, num(cost)), (25, 41.0));
}

#[test]
fn split_makes_two_children_or_none() {
    let mut node = InterimNode::from_triangle_refs(line(9));
    let before = (node.outer_aabb, node.inner_aabb);
    node.split(&Builder, &Balance { leaf: 100.0 });
    assert_eq!((node.outer_aabb, node.inner_aabb), before);
    assert!(node.triangles.is_empty());
    assert_eq!(node.children.len(), 2);
    // The split is at 25 / 64 of the extent, which is 3.125.
    assert_eq!(indices(&node.children[0].triangles), vec![0, 1, 2, 3]);
    assert_eq!(indices(&node.children[1].triangles), vec![4, 5, 6, 7, 8]);
    assert_eq!(node.children[0].outer_aabb, Aabb::new(v(-0.5, -0.5, -0.5), v(3.5, 0.5, 0.5)));
    assert_eq!(node.children[1].inner_aabb, Aabb::new(v(4.0, 0.0, 0.0), v(8.0, 0.0, 0.0)));
    assert_eq!((node.count_nodes(), node.count_leaves(), node.count_triangles()), (3, 2, 9));

    // A split that is not cheaper than the leaf is not made: 41 is not less than 41.
    let mut node = InterimNode::from_triangle_refs(line(9));
    node.split(&Builder, &Balance { leaf: 41.0 / 9.0 });
    assert!(node.children.is_empty());
    assert_eq!(node.triangles.len(), 9);

    // One triangle is never split, nor are triangles at one place.
    let mut node = InterimNode::from_triangle_refs(line(1));
    node.split(&Builder, &Balance { leaf: 100.0 });
    assert!(node.children.is_empty());
    let same: Vec<TriangleRef> = (0..5).map(|i| reference(i, 1.0, 1.0, 1.0)).collect();
    let mut node = InterimNode::from_triangle_refs(same);
    node.split(&Builder, &Balance { leaf: 100.0 });
    assert!(node.children.is_empty());
    assert_eq!(node.triangles.len(), 5);
}

fn leaves(node: &InterimNode, out: &mut Vec<Vec<usize>>) {
    if node.children.is_empty() {
        out.push(indices(&node.triangles));
    } else {
        assert_eq!(node.children.len(), 2);
        assert!(node.triangles.is_empty());
        leaves(&node.children[0], out);
        leaves(&node.children[1], out);
    }
}

#[test]
fn recursive_split_makes_a_tree() {
    let mut node = InterimNode::from_triangle_refs(line(9));
    node.split_recursive(&Builder, &Balance { leaf: 100.0 });
    let mut found = Vec::new();
    leaves(&node, &mut found);
    assert!(found.iter().all(|l| !l.is_empty()));
    let all: Vec<usize> = found.iter().flatten().cloned().collect();
    assert_eq!(all, vec![0, 1, 2, 3, 4, 5, 6, 7, 8]);
    assert_eq!(node.count_triangles(), 9);
    assert_eq!(node.count_leaves(), found.len());
    assert_eq!(node.count_nodes(), 2 * found.len() - 1);
    assert!(found.len() > 2);
}

#[test]
fn a_reference_describes_its_triangle() {
    let t = Triangle::new(v(0.0, 0.0, 0.0), v(3.0, 0.0, 0.0), v(0.0, 6.0, -3.0), SMaterial::white());
    let r = TriangleRef::from_triangle(&Builder, 7, &t);
    assert_eq!(r.index, 7);
    assert_eq!(r.aabb, Aabb::new(v(0.0, 0.0, -3.0), v(3.0, 6.0, 0.0)));
    assert_eq!(r.aabb, t.bounding_box());
    assert_eq!(r.barycenter, v(1.0, 2.0, -1.0));
}

#[test]
fn a_candidate_replaces_only_where_it_is_valid_and_nearer() {
    let t = Triangle::new(v(0.0, 0.0, 0.0), v(1.0, 0.0, 0.0), v(0.0, 1.0, 0.0), SMaterial::glass());
    let p = |a: [f32; 8]| Mf32::generate(|i| a[i].to_bits());
    let hit = MTriangleHit {
        position: MVector3::broadcast(v(9.0, 9.0, 9.0)),
        normal: MVector3::broadcast(v(0.0, 0.0, 1.0)),
        distance: p([1.0, 1.0, 1.0, 1.0, -1.0, 5.0, 0.0, f32::NAN]),
        u: p([0.25, -0.1, 0.5, 0.0, 0.25, 0.25, 1.0, 0.25]),
        v: p([0.25, 0.5, 0.75, 1.0, 0.25, 0.25, 0.0, 0.25]),
        uv: p([0.5, 0.4, 1.25, 1.0, 0.5, 0.5, 1.0, 0.5]),
    };
    let isect = MIntersection {
        position: MVector3::broadcast(v(0.0, 0.0, 0.0)),
        normal: MVector3::broadcast(v(1.0, 0.0, 0.0)),
        distance: Mf32::broadcast(2.0_f32.to_bits()),
        material: Mf32::sky(),
    };
    let found = t.intersect(&hit, isect);
    // Inside and nearer; left of an edge; beyond the third edge; on a corner;
    // behind the ray; not nearer; at the origin of the ray; a NaN.
    let replaced = [true, false, false, true, false, false, true, false];
    for k in 0..8 {
        if replaced[k] {
            assert_eq!(found.distance.as_slice()[k], hit.distance.as_slice()[k]);
            assert_eq!(found.position.x.as_slice()[k], 9.0_f32.to_bits());
            assert_eq!(found.normal.z.as_slice()[k], 1.0_f32.to_bits());
            assert_eq!(found.material.as_slice()[k], SMaterial::glass().0);
        } else {
            assert_eq!(found.distance.as_slice()[k], 2.0_f32.to_bits());
            assert_eq!(found.position.x.as_slice()[k], 0.0_f32.to_bits());
            assert_eq!(found.normal.z.as_slice()[k], 0.0_f32.to_bits());
            assert_eq!(found.material.as_slice()[k], SMaterial::sky().0);
        }
    }
    // A hit at the same distance does not replace.
    let same = MIntersection { distance: Mf32::broadcast(1.0_f32.to_bits()), ..isect };
    let found = t.intersect(&hit, same);
    assert_eq!(found.distance.as_slice()[0], 1.0_f32.to_bits());
    assert_eq!(found.material.as_slice()[0], SMaterial::sky().0);
}

#[test]
fn an_axis_is_held_against_the_best_so_far() {
    let node = InterimNode::from_triangle_refs(line(9));
    let balance = Balance { leaf: 100.0 };
    // The split along x at 25 / 64 of the extent costs 41.
    let along_x = node.consider_axis(&Builder, &balance, Axis::X, None);
    assert_eq!(along_x, Some((Axis::X, 3.125_f32.to_bits(), 41.0_f32.to_bits())));
    // It takes the place of what costs more, and of nothing else.
    let dearer = Some((Axis::Z, 7.0_f32.to_bits(), 42.0_f32.to_bits()));
    assert_eq!(node.consider_axis(&Builder, &balance, Axis::X, dearer), along_x);
    let same = Some((Axis::Z, 7.0_f32.to_bits(), 41.0_f32.to_bits()));
    assert_eq!(node.consider_axis(&Builder, &balance, Axis::X, same), same);
    let nan = Some((Axis::Z, 7.0_f32.to_bits(), f32::NAN.to_bits()));
    assert_eq!(node.consider_axis(&Builder, &balance, Axis::X, nan), nan);
    // Along y all the triangles lie in one bin: nothing is offered.
    assert_eq!(node.consider_axis(&Builder, &balance, Axis::Y, None), None);
    assert_eq!(node.consider_axis(&Builder, &balance, Axis::Y, along_x), along_x);
}
