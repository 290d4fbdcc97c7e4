use convector::aabb::{Aabb, Slabs};
use convector::arithmetic::{Arithmetic, Bounce, Camera, Heuristic, Random};
use convector::bvh::{BuildError, Bvh, BvhNode};
use convector::material::SMaterial;
use convector::ray::{MIntersection, MRay};
use convector::renderer::{MPixelData, Renderer};
use convector::scene::Scene;
use convector::simd::{Mf32, Mi32};
use convector::triangle::{MTriangleHit, Triangle};
use convector::vector3::{MVector3, SVector3};
use convector::wavefront::Mesh;

fn num(bits: u32) -> f32 {
    f32::from_bits(bits)
}

fn lanes(m: Mf32) -> [f32; 8] {
    let s = m.as_slice();
    [num(s[0]), num(s[1]), num(s[2]), num(s[3]), num(s[4]), num(s[5]), num(s[6]), num(s[7])]
}

fn packet(v: [f32; 8]) -> Mf32 {
    Mf32::generate(|i| v[i].to_bits())
}

fn ilanes(m: Mi32) -> [u32; 8] {
    [m.0, m.1, m.2, m.3, m.4, m.5, m.6, m.7]
}

fn ipacket(v: [u32; 8]) -> Mi32 {
    Mi32(v[0], v[1], v[2], v[3], v[4], v[5], v[6], v[7])
}

fn vec3(v: SVector3) -> [f32; 3] {
    [num(v.x), num(v.y), num(v.z)]
}

fn svec(v: [f32; 3]) -> SVector3 {
    SVector3::new(v[0].to_bits(), v[1].to_bits(), v[2].to_bits())
}

fn mlane(v: &MVector3, k: usize) -> [f32; 3] {
    [lanes(v.x)[k], lanes(v.y)[k], lanes(v.z)[k]]
}

fn mvec(v: [[f32; 3]; 8]) -> MVector3 {
    MVector3::generate(|i| svec(v[i]))
}

fn sub(a: [f32; 3], b: [f32; 3]) -> [f32; 3] {
    [a[0] - b[0], a[1] - b[1], a[2] - b[2]]
}

fn plus(a: [f32; 3], b: [f32; 3]) -> [f32; 3] {
    [a[0] + b[0], a[1] + b[1], a[2] + b[2]]
}

fn scale(a: [f32; 3], s: f32) -> [f32; 3] {
    [a[0] * s, a[1] * s, a[2] * s]
}

fn dot(a: [f32; 3], b: [f32; 3]) -> f32 {
    a[0] * b[0] + a[1] * b[1] + a[2] * b[2]
}

fn cross(a: [f32; 3], b: [f32; 3]) -> [f32; 3] {
    [a[1] * b[2] - a[2] * b[1], a[2] * b[0] - a[0] * b[2], a[0] * b[1] - a[1] * b[0]]
}

fn normalized(a: [f32; 3]) -> [f32; 3] {
    scale(a, 1.0 / dot(a, a).sqrt())
}

const EPSILON: f32 = 1.0e-3;

/// The arithmetic of the machine.
struct Fpu;

impl Arithmetic for Fpu {
    fn barycenter(&self, triangle: &Triangle) -> SVector3 {
        let sum = plus(plus(vec3(triangle.v0), vec3(triangle.v1)), vec3(triangle.v2));
        svec(scale(sum, 1.0 / 3.0))
    }

    fn bin_index(&self, bins: usize, min: u32, max: u32, coord: u32) -> usize {
        let size = num(max) - num(min);
        ((bins as f32) * (num(coord) - num(min)) / size).floor() as usize
    }

    fn split_coordinate(&self, bins: usize, min: u32, max: u32, index: usize) -> u32 {
        let size = num(max) - num(min);
        (num(min) + size / (bins as f32) * (index as f32)).to_bits()
    }

    fn sum(&self, a: u32, b: u32) -> u32 {
        (num(a) + num(b)).to_bits()
    }

    fn slab_distances(&self, aabb: &Aabb, ray: &MRay) -> Slabs {
        let lo = vec3(aabb.origin);
        let hi = vec3(aabb.far);
        let mut t = [[0.0_f32; 8]; 6];
        for k in 0..8 {
            let o = mlane(&ray.origin, k);
            let d = mlane(&ray.direction, k);
            for axis in 0..3 {
                let recip = 1.0 / d[axis];
                t[2 * axis][k] = (lo[axis] - o[axis]) * recip;
                t[2 * axis + 1][k] = (hi[axis] - o[axis]) * recip;
            }
        }
        Slabs {
            x0: packet(t[0]),
            x1: packet(t[1]),
            y0: packet(t[2]),
            y1: packet(t[3]),
            z0: packet(t[4]),
            z1: packet(t[5]),
        }
    }

    fn triangle_hit(&self, triangle: &Triangle, ray: &MRay) -> MTriangleHit {
        let v0 = vec3(triangle.v0);
        let e1 = sub(vec3(triangle.v1), v0);
        let e2 = sub(vec3(triangle.v2), v0);
        let face = normalized(cross(e1, e2));
        let mut position = [[0.0_f32; 3]; 8];
        let mut normal = [[0.0_f32; 3]; 8];
        let mut distance = [0.0_f32; 8];
        let mut us = [0.0_f32; 8];
        let mut vs = [0.0_f32; 8];
        let mut uvs = [0.0_f32; 8];
        for k in 0..8 {
            let o = mlane(&ray.origin, k);
            let d = mlane(&ray.direction, k);
            let p = cross(d, e2);
            let inv_det = 1.0 / dot(e1, p);
            let from_v0 = sub(o, v0);
            let u = dot(from_v0, p) * inv_det;
            let q = cross(from_v0, e1);
            let v = dot(d, q) * inv_det;
            let t = dot(e2, q) * inv_det;
            position[k] = plus(o, scale(d, t));
            normal[k] = face;
            distance[k] = t;
            us[k] = u;
            vs[k] = v;
            uvs[k] = u + v;
        }
        MTriangleHit {
            position: mvec(position),
            normal: mvec(normal),
            distance: packet(distance),
            u: packet(us),
            v: packet(vs),
            uv: packet(uvs),
        }
    }

    fn point_at(&self, ray: &MRay, distance: Mf32) -> MVector3 {
        let t = lanes(distance);
        let mut points = [[0.0_f32; 3]; 8];
        for k in 0..8 {
            points[k] = plus(mlane(&ray.origin, k), scale(mlane(&ray.direction, k), t[k]));
        }
        mvec(points)
    }

    fn less_epsilon(&self, distance: Mf32) -> Mf32 {
        let t = lanes(distance);
        Mf32::generate(|i| (t[i] - EPSILON).to_bits())
    }

    fn screen_coords(
        &self,
        width: u32,
        height: u32,
        xs: Mi32,
        ys: Mi32,
        jitter_x: Mf32,
        jitter_y: Mf32,
    ) -> (Mf32, Mf32) {
        let scale = 2.0 / width as f32;
        let px = ilanes(xs);
        let py = ilanes(ys);
        let jx = lanes(jitter_x);
        let jy = lanes(jitter_y);
        let x = Mf32::generate(|i| {
            (jx[i] * scale + scale * (px[i] as f32 - width as f32 * 0.5)).to_bits()
        });
        let y = Mf32::generate(|i| {
            (jy[i] * scale + scale * (py[i] as f32 - height as f32 * 0.5)).to_bits()
        });
        (x, y)
    }

    fn diffuse_bounce(&self, sample: MVector3, isect: &MIntersection) -> Bounce {
        let mut origin = [[0.0_f32; 3]; 8];
        let mut direction = [[0.0_f32; 3]; 8];
        let mut modulation = [[0.0_f32; 3]; 8];
        for k in 0..8 {
            let local = mlane(&sample, k);
            let n = mlane(&isect.normal, k);
            // An orthonormal frame around the normal.
            let helper = if n[0].abs() > 0.5 { [0.0, 1.0, 0.0] } else { [1.0, 0.0, 0.0] };
            let tangent = normalized(cross(helper, n));
            let bitangent = cross(n, tangent);
            let dir = plus(
                plus(scale(tangent, local[0]), scale(bitangent, local[1])),
                scale(n, local[2]),
            );
            direction[k] = dir;
            origin[k] = plus(mlane(&isect.position, k), scale(dir, EPSILON));
            // The probability density is cos / pi, the factor of a diffuse
            // surface is cos / (2 pi): the quotient is one half.
            let pd = local[2] * (1.0 / std::f32::consts::PI);
            let brdf = (0.5 / std::f32::consts::PI) * local[2];
            let m = if pd > 0.0 { brdf / pd } else { 0.5 };
            modulation[k] = [m, m, m];
        }
        Bounce {
            ray: MRay { origin: mvec(origin), direction: mvec(direction), active: Mf32::zero() },
            color_mod: mvec(modulation),
            tex_coords: (Mf32::zero(), Mf32::zero()),
            fresnel: Mf32::zero(),
        }
    }

    fn modulate(&self, color: MVector3, factor: MVector3) -> MVector3 {
        let mut out = [[0.0_f32; 3]; 8];
        for k in 0..8 {
            let c = mlane(&color, k);
            let f = mlane(&factor, k);
            out[k] = [c[0] * f[0], c[1] * f[1], c[2] * f[2]];
        }
        mvec(out)
    }

    fn sky_intensity(&self, direction: MVector3) -> MVector3 {
        let mut out = [[0.0_f32; 3]; 8];
        for k in 0..8 {
            let d = 0.5 + 0.5 * mlane(&direction, k)[2];
            out[k] = [d, d * d, d * (d * d)];
        }
        mvec(out)
    }

    fn debug_color(&self, num_aabbs: u32, num_triangles: u32) -> MVector3 {
        let g = (num_aabbs as f32).log2() * 0.1;
        let b = (num_triangles as f32).log2() * 0.1;
        mvec([[0.0, g, b]; 8])
    }

    fn accumulate(&self, sum: MVector3, color: MVector3) -> MVector3 {
        let mut out = [[0.0_f32; 3]; 8];
        for k in 0..8 {
            out[k] = plus(mlane(&sum, k), mlane(&color, k));
        }
        mvec(out)
    }

    fn average(&self, sum: MVector3, num_samples: u32) -> MVector3 {
        let factor = 1.0 / (num_samples as f32);
        let mut out = [[0.0_f32; 3]; 8];
        for k in 0..8 {
            out[k] = scale(mlane(&sum, k), factor);
        }
        mvec(out)
    }

    fn quantize_color(&self, color: MVector3) -> (Mi32, Mi32, Mi32) {
        // Multiply the colour by 2 to brighten up the scene a bit.
        let q = |m: Mf32| {
            let v = lanes(m);
            let mut out = [0_u32; 8];
            for k in 0..8 {
                out[k] = ((v[k] * 2.0).max(0.0).min(1.0) * 255.0) as i32 as u32;
            }
            ipacket(out)
        };
        (q(color.x), q(color.y), q(color.z))
    }

    fn quantize_surface(&self, tex_coords: (Mf32, Mf32), fresnel: Mf32) -> (Mi32, Mi32, Mi32) {
        let q = |m: Mf32| {
            let v = lanes(m);
            let mut out = [0_u32; 8];
            for k in 0..8 {
                out[k] = (v[k] * 255.0) as i32 as u32;
            }
            ipacket(out)
        };
        (q(tex_coords.0), q(tex_coords.1), q(fresnel))
    }
}

/// The tree surface area heuristic: the cost of a node, given that its
/// triangles end up in a balanced tree below it.
struct TreeSurfaceAreaHeuristic {
    aabb_intersection_cost: f32,
    triangle_intersection_cost: f32,
    intersection_probability: f32,
}

fn area(aabb: &Aabb) -> f32 {
    let s = sub(vec3(aabb.far), vec3(aabb.origin));
    2.0 * (s[0] * s[1] + s[1] * s[2] + s[2] * s[0])
}

impl Heuristic for TreeSurfaceAreaHeuristic {
    fn aabb_cost(&self, parent_aabb: &Aabb, aabb: &Aabb, num_tris: usize) -> u32 {
        let ac_ap = area(aabb) / area(parent_aabb);
        let p = self.intersection_probability;
        let n = num_tris as f32;
        let m = n.log2();

        let aabb_term = 1.0 + ac_ap * (2.0 * p - n * p.powf(m)) / (p - 2.0 * p * p);
        let tri_term = n * p.powf(m - 1.0) * ac_ap;

        (aabb_term * self.aabb_intersection_cost + tri_term * self.triangle_intersection_cost)
            .to_bits()
    }

    fn tris_cost(&self, num_tris: usize) -> u32 {
        ((num_tris as f32) * self.triangle_intersection_cost).to_bits()
    }
}

fn heuristic() -> TreeSurfaceAreaHeuristic {
    TreeSurfaceAreaHeuristic {
        aabb_intersection_cost: 40.0,
        triangle_intersection_cost: 120.0,
        intersection_probability: 0.1,
    }
}

/// Random numbers made of the bits of the library's generator.
struct Sampler {
    bits: convector::random::Rng,
}

impl Sampler {
    fn next(&mut self) -> [f32; 8] {
        let bits = ilanes(self.bits.next_bits());
        let mut out = [0.0_f32; 8];
        for k in 0..8 {
            out[k] = (bits[k] >> 8) as f32 * (1.0 / 16777216.0);
        }
        out
    }
}

impl Random for Sampler {
    fn with_seed(x: u32, y: u32, frame: u32) -> Sampler {
        Sampler { bits: convector::random::Rng::with_seed(x, y, frame) }
    }

    fn sample_unit(&mut self) -> Mf32 {
        packet(self.next())
    }

    fn sample_hemisphere_vector(&mut self) -> MVector3 {
        let u1 = self.next();
        let u2 = self.next();
        let mut out = [[0.0_f32; 3]; 8];
        for k in 0..8 {
            let phi = 2.0 * std::f32::consts::PI * u2[k];
            let r = u1[k].sqrt();
            out[k] = [r * phi.cos(), r * phi.sin(), (1.0 - u1[k]).sqrt()];
        }
        mvec(out)
    }
}

/// A camera at `position` that looks along `forward`.
struct Pinhole {
    position: [f32; 3],
    forward: [f32; 3],
    right: [f32; 3],
    up: [f32; 3],
}

impl Camera for Pinhole {
    fn get_ray(&self, x: Mf32, y: Mf32, _t: Mf32) -> MRay {
        let xs = lanes(x);
        let ys = lanes(y);
        let mut direction = [[0.0_f32; 3]; 8];
        for k in 0..8 {
            let d = plus(plus(self.forward, scale(self.right, xs[k])), scale(self.up, ys[k]));
            direction[k] = normalized(d);
        }
        MRay { origin: mvec([self.position; 8]), direction: mvec(direction), active: Mf32::zero() }
    }
}

fn triangle(a: [f32; 3], b: [f32; 3], c: [f32; 3], material: SMaterial) -> Triangle {
    Triangle::new(svec(a), svec(b), svec(c), material)
}

/// The twelve triangles of the box between two corners.
fn cuboid(lo: [f32; 3], hi: [f32; 3], material: SMaterial) -> Vec<Triangle> {
    let p = |i: usize| {
        [
            if i & 1 == 0 { lo[0] } else { hi[0] },
            if i & 2 == 0 { lo[1] } else { hi[1] },
            if i & 4 == 0 { lo[2] } else { hi[2] },
        ]
    };
    let faces = [
        [0, 1, 3, 2],
        [4, 6, 7, 5],
        [0, 4, 5, 1],
        [2, 3, 7, 6],
        [0, 2, 6, 4],
        [1, 5, 7, 3],
    ];
    let mut triangles = Vec::new();
    // The corners of a face go round so that its normal points outward.
    for f in faces.iter() {
        triangles.push(triangle(p(f[0]), p(f[2]), p(f[1]), material));
        triangles.push(triangle(p(f[0]), p(f[3]), p(f[2]), material));
    }
    triangles
}

/// Numbers in [0, 1) that are the same in every run.
struct Lcg(u64);

impl Lcg {
    fn next(&mut self) -> f32 {
        self.0 = self.0.wrapping_mul(6364136223846793005).wrapping_add(1442695040888963407);
        ((self.0 >> 40) as f32) * (1.0 / 16777216.0)
    }

    fn on_sphere(&mut self) -> [f32; 3] {
        let phi = 2.0 * std::f32::consts::PI * self.next();
        let cos_theta = 2.0 * self.next() - 1.0;
        let sin_theta = (1.0 - cos_theta * cos_theta).sqrt();
        [phi.cos() * sin_theta, phi.sin() * sin_theta, cos_theta]
    }
}

fn rays(origins: [[f32; 3]; 8], directions: [[f32; 3]; 8]) -> MRay {
    MRay::new(mvec(origins), mvec(directions))
}

fn far_away(ray: &MRay) -> MIntersection {
    MIntersection {
        position: ray.origin,
        normal: ray.direction,
        distance: Mf32::broadcast(1.0e5_f32.to_bits()),
        material: Mf32::sky(),
    }
}

/// The nearest hits by trying every triangle.
fn brute_force(triangles: &[Triangle], ray: &MRay) -> MIntersection {
    let mut isect = far_away(ray);
    for t in triangles {
        isect = t.intersect(&Fpu.triangle_hit(t, ray), isect);
    }
    isect
}

fn build(triangles: &[Triangle]) -> Bvh {
    Bvh::build(&Fpu, &heuristic(), triangles).unwrap()
}

fn nodes_of(bvh: &Bvh) -> Vec<BvhNode> {
    (0..bvh.num_nodes()).map(|i| bvh.node(i).unwrap()).collect()
}

fn triangles_of(bvh: &Bvh) -> Vec<Triangle> {
    (0..bvh.num_triangles()).map(|i| bvh.triangle(i).unwrap()).collect()
}

fn key(t: &Triangle) -> [u32; 10] {
    [t.v0.x, t.v0.y, t.v0.z, t.v1.x, t.v1.y, t.v1.z, t.v2.x, t.v2.y, t.v2.z, t.material.0]
}

fn holds(outer: &Aabb, inner: &Aabb) -> bool {
    let (lo, hi) = (vec3(outer.origin), vec3(outer.far));
    let (a, b) = (vec3(inner.origin), vec3(inner.far));
    (0..3).all(|i| lo[i] <= a[i] && b[i] <= hi[i])
}

/// Checks the shape of the hierarchy and that every box holds what is below it.
fn assert_well_formed(bvh: &Bvh, source: &[Triangle]) {
    let nodes = nodes_of(bvh);
    let triangles = triangles_of(bvh);
    assert!(nodes.len() >= 2);
    assert_eq!(nodes.len() % 2, 0);
    assert!(nodes.len() + 2 <= 2 * source.len());
    assert_eq!(bvh.node(nodes.len()), None);
    assert_eq!(bvh.triangle(triangles.len()), None);

    let mut seen = vec![0; triangles.len()];
    let mut children = vec![0; nodes.len()];
    for (j, node) in nodes.iter().enumerate() {
        if node.len == 0 {
            let c = node.index as usize;
            assert!(c > j);
            assert_eq!(c % 2, 0);
            assert!(c + 1 < nodes.len());
            children[c] += 1;
            children[c + 1] += 1;
            assert!(holds(&node.aabb, &nodes[c].aabb));
            assert!(holds(&node.aabb, &nodes[c + 1].aabb));
        } else {
            let first = node.index as usize;
            let end = first + node.len as usize;
            assert!(end <= triangles.len());
            for t in first..end {
                seen[t] += 1;
                assert!(holds(&node.aabb, &triangles[t].bounding_box()));
            }
        }
    }
    // Every triangle lies in one leaf, and every node but the roots has one parent.
    assert!(seen.iter().all(|&n| n == 1));
    assert_eq!(children[0], 0);
    assert_eq!(children[1], 0);
    assert!(children[2..].iter().all(|&n| n == 1));

    let mut a: Vec<[u32; 10]> = source.iter().map(key).collect();
    let mut b: Vec<[u32; 10]> = triangles.iter().map(key).collect();
    a.sort();
    b.sort();
    assert_eq!(a, b);
}

fn unit_cube() -> Vec<Triangle> {
    cuboid([-1.0, -1.0, -1.0], [1.0, 1.0, 1.0], SMaterial::white())
}

fn scattered(n: usize, seed: u64) -> Vec<Triangle> {
    let mut lcg = Lcg(seed);
    let mut triangles = Vec::new();
    for _ in 0..n {
        let c = [10.0 * lcg.next() - 5.0, 10.0 * lcg.next() - 5.0, 10.0 * lcg.next() - 5.0];
        let a = plus(c, scale(lcg.on_sphere(), 0.4));
        let b = plus(c, scale(lcg.on_sphere(), 0.4));
        let d = plus(c, scale(lcg.on_sphere(), 0.4));
        triangles.push(triangle(a, b, d, SMaterial::diffuse(10, 20, 30)));
    }
    triangles
}

/// Eight rays from a sphere of the given radius towards points near the origin.
fn inward(lcg: &mut Lcg, radius: f32, spread: f32) -> MRay {
    let mut origins = [[0.0_f32; 3]; 8];
    let mut directions = [[0.0_f32; 3]; 8];
    for k in 0..8 {
        let o = scale(lcg.on_sphere(), radius);
        let target = scale(lcg.on_sphere(), spread * lcg.next());
        origins[k] = o;
        directions[k] = normalized(sub(target, o));
    }
    rays(origins, directions)
}

#[test]
fn build_refuses_no_triangles() {
    let r = Bvh::build(&Fpu, &heuristic(), &[]);
    assert!(matches!(r, Err(BuildError::NoTriangles)));
}

#[test]
fn build_refuses_what_does_not_split() {
    let one = [triangle([0.0, 0.0, 0.0], [1.0, 0.0, 0.0], [0.0, 1.0, 0.0], SMaterial::white())];
    let r = Bvh::build(&Fpu, &heuristic(), &one);
    assert!(matches!(r, Err(BuildError::NotSplit)));

    // Triangles with one barycenter fall into one bin on every axis.
    let same = vec![one[0]; 5];
    let r = Bvh::build(&Fpu, &heuristic(), &same);
    assert!(matches!(r, Err(BuildError::NotSplit)));
}

#[test]
fn cube_hierarchy_is_well_formed() {
    let source = unit_cube();
    let bvh = build(&source);
    assert_eq!(bvh.num_triangles(), 12);
    assert_well_formed(&bvh, &source);
}

#[test]
fn scattered_hierarchy_is_well_formed() {
    let source = scattered(500, 7);
    let bvh = build(&source);
    assert_eq!(bvh.num_triangles(), 500);
    assert_well_formed(&bvh, &source);
}

#[test]
fn degenerate_triangles_are_kept() {
    let mut source = scattered(40, 3);
    let p = [0.5, 0.5, 0.5];
    source.push(triangle(p, p, p, SMaterial::white()));
    source.push(triangle(p, [1.5, 0.5, 0.5], [2.5, 0.5, 0.5], SMaterial::white()));
    let bvh = build(&source);
    assert_well_formed(&bvh, &source);
    // A ray through the point meets nothing there.
    let ray = rays([[0.5, 0.5, 20.0]; 8], [[0.0, 0.0, -1.0]; 8]);
    let found = bvh.intersect_nearest(&Fpu, &ray, far_away(&ray));
    let expected = brute_force(&source, &ray);
    assert_eq!(found.distance, expected.distance);
}

#[test]
fn from_meshes_builds_the_triangles_of_all_meshes() {
    let square = Mesh {
        vertices: vec![
            svec([0.0, 0.0, 0.0]),
            svec([1.0, 0.0, 0.0]),
            svec([1.0, 1.0, 0.0]),
            svec([0.0, 1.0, 0.0]),
        ],
        triangles: vec![(0, 1, 2), (0, 2, 3)],
        material: SMaterial::white(),
    };
    let other = Mesh {
        vertices: vec![svec([5.0, 0.0, 1.0]), svec([6.0, 0.0, 1.0]), svec([6.0, 1.0, 1.0])],
        triangles: vec![(0, 1, 2)],
        material: SMaterial::sky(),
    };
    assert!(square.is_well_formed());
    assert!(other.is_well_formed());
    let meshes = [square, other];
    let bvh = Bvh::from_meshes(&Fpu, &heuristic(), &meshes).unwrap();
    let source = vec![
        triangle([0.0, 0.0, 0.0], [1.0, 0.0, 0.0], [1.0, 1.0, 0.0], SMaterial::white()),
        triangle([0.0, 0.0, 0.0], [1.0, 1.0, 0.0], [0.0, 1.0, 0.0], SMaterial::white()),
        triangle([5.0, 0.0, 1.0], [6.0, 0.0, 1.0], [6.0, 1.0, 1.0], SMaterial::sky()),
    ];
    assert_well_formed(&bvh, &source);

    let broken = Mesh { vertices: vec![svec([0.0, 0.0, 0.0])], triangles: vec![(0, 0, 1)], material: SMaterial::white() };
    assert!(!broken.is_well_formed());
}

#[test]
fn traversal_agrees_with_brute_force() {
    let source = scattered(300, 11);
    let bvh = build(&source);
    let mut lcg = Lcg(99);
    let mut hits = 0;
    for _ in 0..128 {
        let ray = inward(&mut lcg, 20.0, 5.0);
        let found = bvh.intersect_nearest(&Fpu, &ray, far_away(&ray));
        let expected = brute_force(&source, &ray);
        assert_eq!(found.distance, expected.distance);
        assert_eq!(found.position, expected.position);
        assert_eq!(found.normal, expected.normal);
        assert_eq!(found.material, expected.material);
        for k in 0..8 {
            if lanes(found.distance)[k] < 1.0e5 {
                hits += 1;
                assert!(lanes(found.distance)[k] >= 0.0);
            }
        }
    }
    assert!(hits > 100);
}

#[test]
fn a_lane_that_meets_nothing_keeps_what_it_had() {
    let source = unit_cube();
    let bvh = build(&source);
    // Four lanes point at the cube, four point away from it.
    let mut directions = [[0.0, 0.0, -1.0]; 8];
    for k in 4..8 {
        directions[k] = [0.0, 0.0, 1.0];
    }
    let ray = rays([[0.25, 0.5, 4.0]; 8], directions);
    let start = far_away(&ray);
    let found = bvh.intersect_nearest(&Fpu, &ray, start);
    for k in 0..8 {
        if k < 4 {
            assert_eq!(lanes(found.distance)[k], 3.0);
            assert_eq!(mlane(&found.position, k), [0.25, 0.5, 1.0]);
            assert_eq!(mlane(&found.normal, k), [0.0, 0.0, 1.0]);
            assert_eq!(found.material.as_slice()[k], SMaterial::white().0);
        } else {
            assert_eq!(lanes(found.distance)[k], 1.0e5);
            assert_eq!(mlane(&found.position, k), mlane(&start.position, k));
            assert_eq!(found.material.as_slice()[k], SMaterial::sky().0);
        }
    }
    // Nothing nearer than what a lane has is looked for.
    let near = MIntersection { distance: Mf32::broadcast(2.0_f32.to_bits()), ..start };
    let found = bvh.intersect_nearest(&Fpu, &ray, near);
    assert_eq!(found, near);
}

#[test]
fn ray_at_a_barycenter_returns_that_triangle() {
    let source = scattered(200, 5);
    let bvh = build(&source);
    let mut lcg = Lcg(1234);
    for t in &source {
        let target = vec3(Fpu.barycenter(t));
        let e1 = sub(vec3(t.v1), vec3(t.v0));
        let e2 = sub(vec3(t.v2), vec3(t.v0));
        let n = normalized(cross(e1, e2));
        // Start a little above the triangle, so that nothing lies in between.
        let side = if lcg.next() < 0.5 { 1.0 } else { -1.0 };
        let origin = plus(target, scale(n, side * 0.01));
        let direction = scale(n, -side);
        let ray = rays([origin; 8], [direction; 8]);
        let found = bvh.intersect_nearest(&Fpu, &ray, far_away(&ray));
        let expected = brute_force(&source, &ray);
        assert_eq!(found.distance, expected.distance);
        for k in 0..8 {
            let d = lanes(found.distance)[k];
            // That triangle, or one that lies in front of it.
            assert!(0.0 <= d && d < 0.01 + 1.0e-4, "distance {}", d);
            assert_eq!(found.material.as_slice()[k], t.material.0);
        }
    }
}

#[test]
fn cube_is_hit_by_the_rays_that_point_at_it() {
    let source = unit_cube();
    let bvh = build(&source);
    let mut lcg = Lcg(42);
    let up = [0.0, 0.0, 1.0];
    let (n, m) = (4096, 2048);
    let mut all = Vec::new();
    for i in 0..n {
        let p = lcg.on_sphere();
        let direction = scale(p, -1.0);
        let mut origin = scale(p, 16.0);
        if i >= m {
            // Offset the rays that should not intersect the box in a
            // direction perpendicular to the ray.
            origin = plus(origin, scale(normalized(cross(up, direction)), 16.0));
        }
        all.push((origin, direction));
    }
    // Mix the rays that hit with those that do not.
    for i in (1..n).rev() {
        let j = (lcg.next() * (i + 1) as f32) as usize;
        all.swap(i, j.min(i));
    }
    let mut nearest_hits = 0;
    let mut any_hits = 0;
    for chunk in all.chunks(8) {
        let ray = MRay::generate(|i| convector::ray::Ray::new(svec(chunk[i].0), svec(chunk[i].1)));
        let found = bvh.intersect_nearest(&Fpu, &ray, far_away(&ray));
        let mask = bvh.intersect_any(&Fpu, &ray, Mf32::broadcast(1.0e5_f32.to_bits()));
        for k in 0..8 {
            if lanes(found.distance)[k] < 1.0e5 {
                nearest_hits += 1;
            }
            if mask.as_slice()[k] == 0xffff_ffff {
                any_hits += 1;
            } else {
                assert_eq!(mask.as_slice()[k], 0);
            }
        }
    }
    assert_eq!(2048, nearest_hits);
    assert_eq!(2048, any_hits);
}

#[test]
fn intersect_any_agrees_with_brute_force() {
    let source = scattered(300, 21);
    let bvh = build(&source);
    let mut lcg = Lcg(5);
    let mut hits = 0;
    for _ in 0..64 {
        let ray = inward(&mut lcg, 20.0, 5.0);
        let max = [18.0, 19.0, 20.0, 21.0, 22.0, 23.0, 24.0, 40.0];
        let mask = bvh.intersect_any(&Fpu, &ray, packet(max));
        let nearest = lanes(brute_force(&source, &ray).distance);
        for k in 0..8 {
            let expected = nearest[k] < max[k] - EPSILON;
            assert_eq!(mask.as_slice()[k] == 0xffff_ffff, expected);
            assert!(mask.as_slice()[k] == 0xffff_ffff || mask.as_slice()[k] == 0);
            if expected {
                hits += 1;
            }
        }
    }
    assert!(hits > 20);
    let d = packet([1.0, 2.0, 3.0, f32::NAN, 5.0, 6.0, 7.0, 8.0]);
    let t = packet([2.0, 2.0, 2.0, 9.0, f32::NAN, 7.0, 7.0, 7.0]);
    let f = 0xffff_ffff;
    assert_eq!(Bvh::any_hit(d, t), Mf32(f, 0, 0, 0, 0, f, 0, 0));
}

#[test]
fn debug_traversal_counts_what_it_tests() {
    let source = unit_cube();
    let bvh = build(&source);
    let away = rays([[0.0, 0.0, 4.0]; 8], [[0.0, 0.0, 1.0]; 8]);
    let none = bvh.intersect_debug(&Fpu, &away, far_away(&away));
    assert_eq!((none.num_aabbs, none.num_triangles, none.max_stack), (2, 0, 0));
    let at = rays([[0.25, 0.5, 4.0]; 8], [[0.0, 0.0, -1.0]; 8]);
    let work = bvh.intersect_debug(&Fpu, &at, far_away(&at));
    assert!(work.num_aabbs >= 2 && work.num_aabbs % 2 == 0);
    assert!(work.num_triangles >= 1 && work.num_triangles <= 12);
    assert!(1 <= work.max_stack && work.max_stack <= bvh.depth() + 1);
    let nothing = Scene::empty().intersect_debug(&Fpu, &at);
    assert_eq!((nothing.num_aabbs, nothing.num_triangles, nothing.max_stack), (0, 0, 0));
    assert_eq!(Scene::new(bvh).intersect_debug(&Fpu, &at), work);
}

/// The height of the tree below a node, by walking it.
fn height(nodes: &[BvhNode], i: usize) -> usize {
    if nodes[i].len == 0 {
        let c = nodes[i].index as usize;
        1 + height(nodes, c).max(height(nodes, c + 1))
    } else {
        1
    }
}

#[test]
fn the_stack_is_no_deeper_than_the_hierarchy() {
    let source = scattered(2000, 77);
    let bvh = build(&source);
    let nodes = nodes_of(&bvh);
    let depth = height(&nodes, 0).max(height(&nodes, 1));
    assert_eq!(bvh.depth(), depth);
    assert!(depth >= 11, "2000 triangles need a tree of depth 11, not {}", depth);
    let mut lcg = Lcg(8);
    let mut deepest = 0;
    for _ in 0..200 {
        let ray = inward(&mut lcg, 20.0, 5.0);
        let work = bvh.intersect_debug(&Fpu, &ray, far_away(&ray));
        assert!(work.max_stack <= depth + 1);
        deepest = deepest.max(work.max_stack);
    }
    assert!(deepest >= 2);
    let cube = build(&unit_cube());
    assert!(cube.depth() >= 2 && cube.depth() <= 11);
}

#[test]
fn many_triangles_build_and_traverse() {
    let mut lcg = Lcg(2024);
    let mut source = Vec::new();
    for _ in 0..20000 {
        let c = [200.0 * lcg.next() - 100.0, 200.0 * lcg.next() - 100.0, 200.0 * lcg.next() - 100.0];
        let a = plus(c, scale(lcg.on_sphere(), 0.3));
        let b = plus(c, scale(lcg.on_sphere(), 0.3));
        let d = plus(c, scale(lcg.on_sphere(), 0.3));
        source.push(triangle(a, b, d, SMaterial::white()));
    }
    let bvh = build(&source);
    assert_eq!(bvh.num_triangles(), 20000);
    assert!(bvh.num_nodes() % 2 == 0);
    assert!(bvh.num_nodes() + 2 <= 2 * 20000);
    for _ in 0..16 {
        let ray = inward(&mut lcg, 400.0, 100.0);
        let found = bvh.intersect_nearest(&Fpu, &ray, far_away(&ray));
        let expected = brute_force(&source, &ray);
        assert_eq!(found.distance, expected.distance);
    }
}

fn camera_at(position: [f32; 3], forward: [f32; 3]) -> Pinhole {
    let right = normalized(cross(forward, [0.0, 0.0, 1.0]));
    let up = cross(right, forward);
    Pinhole { position, forward, right, up }
}

#[test]
fn empty_scene_shows_the_sky() {
    let renderer = Renderer::new(16, 16);
    let camera = camera_at([0.0, -3.0, 0.0], [0.0, 1.0, 0.0]);
    let scene = Scene::empty();
    let mut rng = Sampler::with_seed(0, 0, 0);
    let x = packet([-0.5, -0.25, 0.0, 0.25, 0.5, 0.75, -0.75, 0.1]);
    let y = packet([0.5, 0.25, 0.0, -0.25, -0.5, 0.75, -0.75, 0.3]);
    let data: MPixelData = renderer.render_pixels(&Fpu, &camera, &scene, x, y, &mut rng);
    let primary = camera.get_ray(x, y, Mf32::zero());
    assert_eq!(data.color, Fpu.sky_intensity(primary.direction));
    assert_eq!(data.tex_index, Mi32::zero());

    let found = scene.intersect_nearest(&Fpu, &primary);
    assert_eq!(found.distance, Mf32::broadcast(1.0e5_f32.to_bits()));
    assert_eq!(found.material, Mf32::sky());
    assert_eq!(found.normal, primary.direction);

    // The bitmap holds the colour of the sky, brightened, clamped and scaled.
    let mut bitmap = vec![Mi32::zero(); 32];
    let mut gbuffer = vec![Mi32::broadcast(0xdead_beef); 32];
    renderer.render_patch_u8::<Fpu, Pinhole, Sampler>(&Fpu, &camera, &scene, &mut bitmap, &mut gbuffer, 16, 0, 0, 0);
    for packet in &bitmap {
        for &pixel in ilanes(*packet).iter() {
            // The sky is brighter in red than in green, and in green than in blue.
            let (r, g, b) = (pixel & 0xff, (pixel >> 8) & 0xff, (pixel >> 16) & 0xff);
            assert!(r > 0 && r >= g && g >= b);
            assert_eq!(pixel >> 24, 0);
        }
    }
    assert!(gbuffer.iter().all(|p| *p == Mi32::zero()));
}

fn quad(a: [f32; 3], b: [f32; 3], c: [f32; 3], d: [f32; 3], material: SMaterial) -> Vec<Triangle> {
    vec![triangle(a, b, c, material), triangle(a, c, d, material)]
}

/// A room of five diffuse walls, open towards the camera, with a lamp below
/// the ceiling. The normals of the walls point into the room.
fn cornell_box() -> Vec<Triangle> {
    let w = SMaterial::white();
    let mut t = Vec::new();
    t.extend(quad([-1.0, -1.0, -1.0], [1.0, -1.0, -1.0], [1.0, 1.0, -1.0], [-1.0, 1.0, -1.0], w));
    t.extend(quad([-1.0, -1.0, 1.0], [-1.0, 1.0, 1.0], [1.0, 1.0, 1.0], [1.0, -1.0, 1.0], w));
    t.extend(quad([-1.0, 1.0, -1.0], [1.0, 1.0, -1.0], [1.0, 1.0, 1.0], [-1.0, 1.0, 1.0], w));
    t.extend(quad([-1.0, -1.0, -1.0], [-1.0, 1.0, -1.0], [-1.0, 1.0, 1.0], [-1.0, -1.0, 1.0], SMaterial::diffuse(255, 0, 0)));
    t.extend(quad([1.0, -1.0, -1.0], [1.0, -1.0, 1.0], [1.0, 1.0, 1.0], [1.0, 1.0, -1.0], SMaterial::diffuse(0, 255, 0)));
    t.extend(quad([-0.5, -0.5, 0.98], [-0.5, 0.5, 0.98], [0.5, 0.5, 0.98], [0.5, -0.5, 0.98], SMaterial::sky()));
    for triangle in &t {
        let e1 = sub(vec3(triangle.v1), vec3(triangle.v0));
        let e2 = sub(vec3(triangle.v2), vec3(triangle.v0));
        assert!(dot(cross(e1, e2), vec3(Fpu.barycenter(triangle))) < 0.0);
    }
    t
}

fn render_frame(scene: &Scene, camera: &Pinhole, frame: u32) -> (Vec<[MVector3; 8]>, Vec<Mi32>) {
    let renderer = Renderer::new(16, 16);
    let mut hdr = renderer.new_buffer_f32();
    assert_eq!(hdr.len(), 4);
    let mut gbuffer = vec![Mi32::zero(); 32];
    renderer.accumulate_patch_f32::<Fpu, Pinhole, Sampler>(&Fpu, camera, scene, &mut hdr, &mut gbuffer, 16, 0, 0, frame);
    (hdr, gbuffer)
}

fn colors(hdr: &[[MVector3; 8]]) -> Vec<[f32; 3]> {
    let mut out = Vec::new();
    for block in hdr {
        for p in block.iter() {
            for k in 0..8 {
                out.push(mlane(p, k));
            }
        }
    }
    out
}

#[test]
fn cornell_box_is_finite_and_lit() {
    let scene = Scene::new(build(&cornell_box()));
    let camera = camera_at([0.0, -3.0, 0.0], [0.0, 1.0, 0.0]);
    let (hdr, gbuffer) = render_frame(&scene, &camera, 0);
    let pixels = colors(&hdr);
    assert_eq!(pixels.len(), 256);
    assert!(pixels.iter().all(|c| c.iter().all(|x| x.is_finite() && *x >= 0.0)));
    let lit = pixels.iter().filter(|c| c.iter().any(|x| *x > 0.0)).count();
    assert!(lit * 20 >= 256, "{} of 256 pixels are lit", lit);
    // The texture index is in the highest byte, and at most 7.
    for packet in &gbuffer {
        for &pixel in ilanes(*packet).iter() {
            assert!(pixel >> 24 <= 7);
        }
    }
}

#[test]
fn diffuse_cube_in_a_lit_cube_has_color() {
    let mut triangles = cuboid([-8.0, -8.0, -8.0], [8.0, 8.0, 8.0], SMaterial::sky());
    triangles.extend(cuboid([-1.0, -1.0, -1.0], [1.0, 1.0, 1.0], SMaterial::white()));
    let scene = Scene::new(build(&triangles));
    // So near that the cube fills the view.
    let camera = camera_at([0.0, -1.5, 0.0], [0.0, 2.0, 0.0]);
    let primary = camera.get_ray(packet([-0.9, 0.9, 0.0, 0.5, -0.5, 0.9, -0.9, 0.0]), packet([-0.9, 0.9, 0.0, -0.5, 0.5, -0.9, 0.9, 0.3]), Mf32::zero());
    let first = scene.intersect_nearest(&Fpu, &primary);
    assert_eq!(first.material, Mf32::broadcast_material(SMaterial::white()));

    let (hdr, _) = render_frame(&scene, &camera, 0);
    let pixels = colors(&hdr);
    assert!(pixels.iter().all(|c| c.iter().all(|x| x.is_finite())));
    let lit = pixels.iter().filter(|c| c.iter().any(|x| *x > 0.0)).count();
    assert!(lit > 128, "{} of 256 pixels are lit", lit);
}

#[test]
fn the_same_seed_gives_the_same_buffers() {
    let scene = Scene::new(build(&cornell_box()));
    let camera = camera_at([0.0, -3.0, 0.0], [0.0, 1.0, 0.0]);
    let renderer = Renderer::new(16, 16);
    let mut first = renderer.new_buffer_f32();
    let mut second = renderer.new_buffer_f32();
    let mut g1 = vec![Mi32::zero(); 32];
    let mut g2 = vec![Mi32::zero(); 32];
    for frame in 0..3 {
        renderer.accumulate_patch_f32::<Fpu, Pinhole, Sampler>(&Fpu, &camera, &scene, &mut first, &mut g1, 16, 0, 0, frame);
    }
    for frame in 0..3 {
        renderer.accumulate_patch_f32::<Fpu, Pinhole, Sampler>(&Fpu, &camera, &scene, &mut second, &mut g2, 16, 0, 0, frame);
    }
    assert_eq!(first, second);
    assert_eq!(g1, g2);
    let (other, _) = render_frame(&scene, &camera, 1);
    assert_ne!(first, other);
}

#[test]
fn a_patch_leaves_the_rest_of_the_buffers_alone() {
    let scene = Scene::new(build(&cornell_box()));
    let camera = camera_at([0.0, -3.0, 0.0], [0.0, 1.0, 0.0]);
    let renderer = Renderer::new(48, 32);
    let marker = Mi32::broadcast(0x1234_5678);
    let mut bitmap = vec![marker; 48 * 32 / 8];
    let mut gbuffer = vec![marker; 48 * 32 / 8];
    renderer.render_patch_u8::<Fpu, Pinhole, Sampler>(&Fpu, &camera, &scene, &mut bitmap, &mut gbuffer, 16, 16, 8, 0);
    for y in 0..32 {
        for x in 0..48 {
            let packet = bitmap[(y * 48 + x) / 8];
            let inside = 16 <= x && x < 32 && 8 <= y && y < 24;
            if !inside {
                assert_eq!(packet, marker);
                assert_eq!(gbuffer[(y * 48 + x) / 8], marker);
            } else {
                assert!(ilanes(packet).iter().all(|p| p >> 24 == 0));
            }
        }
    }

    let mut hdr = renderer.new_buffer_f32();
    assert_eq!(hdr.len(), 3 * 8);
    let mark = MVector3::broadcast(svec([9.0, 9.0, 9.0]));
    for block in hdr.iter_mut() {
        *block = [mark; 8];
    }
    renderer.accumulate_patch_f32::<Fpu, Pinhole, Sampler>(&Fpu, &camera, &scene, &mut hdr, &mut gbuffer, 16, 16, 8, 0);
    for by in 0..8 {
        for bx in 0..3 {
            let inside = bx == 1 && 2 <= by && by < 6;
            let block = hdr[by * 3 + bx];
            if !inside {
                assert_eq!(block, [mark; 8]);
            } else {
                for p in block.iter() {
                    for k in 0..8 {
                        assert!(mlane(p, k).iter().all(|c| *c >= 9.0));
                    }
                }
            }
        }
    }
}

#[test]
fn accumulated_frames_become_a_bitmap() {
    let scene = Scene::empty();
    let camera = camera_at([0.0, -3.0, 0.0], [0.0, 1.0, 0.0]);
    let renderer = Renderer::new(16, 16);
    let mut hdr = renderer.new_buffer_f32();
    let mut gbuffer = vec![Mi32::zero(); 32];
    for frame in 0..4 {
        renderer.accumulate_patch_f32::<Fpu, Pinhole, Sampler>(&Fpu, &camera, &scene, &mut hdr, &mut gbuffer, 16, 0, 0, frame);
    }
    let mut buffer = convector::renderer::RenderBuffer::new(16, 16);
    renderer.buffer_f32_into_render_buffer(&Fpu, &hdr, &mut buffer, 4);
    let bytes = buffer.into_bitmap();
    assert_eq!(bytes.len(), 16 * 16 * 4);
    for pixel in bytes.chunks(4) {
        assert!(pixel[0] > 0 && pixel[0] >= pixel[1] && pixel[1] >= pixel[2]);
        assert_eq!(pixel[3], 0);
    }
}

#[test]
fn sampled_directions_lie_above_the_surface() {
    let mut sampler = Sampler::with_seed(3, 5, 7);
    let n = 4000;
    let mut sum = 0.0_f64;
    for _ in 0..n {
        let units = lanes(sampler.sample_unit());
        assert!(units.iter().all(|u| 0.0 <= *u && *u < 1.0));
        let v = sampler.sample_hemisphere_vector();
        for k in 0..8 {
            let d = mlane(&v, k);
            assert!(d[2] >= 0.0);
            assert!((dot(d, d) - 1.0).abs() < 1.0e-5);
            // The density of a direction is its cosine over pi.
            sum += (d[2] / std::f32::consts::PI) as f64;
        }
    }
    // The mean cosine of directions that are weighted by their cosine is 2/3.
    let mean = sum / (8 * n) as f64;
    assert!((mean - 2.0 / (3.0 * std::f64::consts::PI)).abs() < 0.01, "mean {}", mean);
}
