use convector::ray::{nearest, Intersection, OctaIntersection, OctaRay, Ray};
use convector::simd::Mf32;
use convector::vector3::{MVector3, SVector3};

fn v(x: f32, y: f32, z: f32) -> SVector3 {
    SVector3::new(x.to_bits(), y.to_bits(), z.to_bits())
}

fn at(distance: f32) -> Intersection {
    Intersection { position: v(distance, 0.0, 0.0), normal: v(-1.0, 0.0, 0.0), distance: distance.to_bits() }
}

#[test]
fn nearest_of_two_intersections() {
    assert_eq!(nearest(None, None), None);
    assert_eq!(nearest(None, Some(at(2.0))), Some(at(2.0)));
    assert_eq!(nearest(Some(at(3.0)), None), Some(at(3.0)));
    assert_eq!(nearest(Some(at(3.0)), Some(at(2.0))), Some(at(2.0)));
    assert_eq!(nearest(Some(at(1.0)), Some(at(2.0))), Some(at(1.0)));
    assert_eq!(nearest(Some(at(-1.0)), Some(at(-2.0))), Some(at(-2.0)));
    // The second wins a tie, and against a NaN.
    let tie = Intersection { normal: v(0.0, 1.0, 0.0), ..at(2.0) };
    assert_eq!(nearest(Some(at(2.0)), Some(tie)), Some(tie));
    assert_eq!(nearest(Some(at(f32::NAN)), Some(at(2.0))), Some(at(2.0)));
    let nan = nearest(Some(at(2.0)), Some(at(f32::NAN))).unwrap();
    assert!(f32::from_bits(nan.distance).is_nan());
}

#[test]
fn a_ray_and_its_opposite() {
    let ray = Ray::new(v(1.0, 2.0, 3.0), v(0.0, -1.0, 0.5));
    assert_eq!(ray.origin, v(1.0, 2.0, 3.0));
    assert_eq!(ray.direction, v(0.0, -1.0, 0.5));
    let back = -ray;
    assert_eq!(back, Ray::new(v(1.0, 2.0, 3.0), v(-0.0, 1.0, -0.5)));
    assert_eq!(-back, ray);
}

#[test]
fn a_packet_of_rays_is_a_transpose() {
    let single = |i: usize| Ray::new(v(i as f32, 1.0, 2.0), v(0.0, i as f32 + 0.5, 1.0));
    let packet = OctaRay::generate(single);
    for k in 0..8 {
        assert_eq!(packet.origin.x.as_slice()[k], (k as f32).to_bits());
        assert_eq!(packet.origin.y.as_slice()[k], 1.0_f32.to_bits());
        assert_eq!(packet.direction.y.as_slice()[k], (k as f32 + 0.5).to_bits());
    }
    assert_eq!(packet.active, Mf32::zero());
    let same = OctaRay::new(packet.origin, packet.direction);
    assert_eq!(same, packet);
}

#[test]
fn pick_takes_whole_records() {
    let a = OctaIntersection {
        position: MVector3::broadcast(v(1.0, 1.0, 1.0)),
        normal: MVector3::broadcast(v(0.0, 0.0, 1.0)),
        distance: Mf32::broadcast(1.0_f32.to_bits()),
        material: Mf32::broadcast(7),
    };
    let b = OctaIntersection {
        position: MVector3::broadcast(v(2.0, 2.0, 2.0)),
        normal: MVector3::broadcast(v(0.0, 1.0, 0.0)),
        distance: Mf32::broadcast(2.0_f32.to_bits()),
        material: Mf32::broadcast(0x8000_0000),
    };
    let t = 0x8000_0000;
    let picked = a.pick(&b, Mf32(t, 0, 0, t, 0, t, 0, 0));
    let from_b = [true, false, false, true, false, true, false, false];
    for k in 0..8 {
        let source = if from_b[k] { &b } else { &a };
        assert_eq!(picked.position.x.as_slice()[k], source.position.x.as_slice()[k]);
        assert_eq!(picked.position.z.as_slice()[k], source.position.z.as_slice()[k]);
        assert_eq!(picked.normal.y.as_slice()[k], source.normal.y.as_slice()[k]);
        assert_eq!(picked.distance.as_slice()[k], source.distance.as_slice()[k]);
        assert_eq!(picked.material.as_slice()[k], source.material.as_slice()[k]);
    }
    assert_eq!(a.pick(&b, Mf32::zero()), a);
    assert_eq!(a.pick(&b, Mf32::broadcast(t)), b);
}
