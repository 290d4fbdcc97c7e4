use convector::arithmetic::Bounce;
use convector::material::{mask_bounce, SMaterial};
use convector::ray::{MIntersection, MRay};
use convector::simd::{Mf32, Mi32};
use convector::vector3::{MVector3, SVector3};

#[test]
fn materials_have_their_bits() {
    assert_eq!(SMaterial::sky(), SMaterial(0b11000000_00000000_00000000_00000000));
    assert_eq!(SMaterial::glass(), SMaterial(0b0110_0000_00000000_00000000_00000000));
    assert_eq!(SMaterial::white(), SMaterial(0x00ff_ffff));
    assert_eq!(SMaterial::white(), SMaterial::diffuse(255, 255, 255));
    assert_eq!(SMaterial::diffuse(0x12, 0x34, 0x56), SMaterial(0x0056_3412));
    assert_eq!(SMaterial::diffuse(0, 0, 0), SMaterial(0));
    assert_eq!(SMaterial::diffuse(1, 0, 0), SMaterial(1));
    assert_eq!(SMaterial::diffuse(0, 1, 0), SMaterial(0x100));
    assert_eq!(SMaterial::diffuse(0, 0, 1), SMaterial(0x1_0000));
}

#[test]
fn direct_sampling_is_bit_30() {
    assert!(SMaterial::sky().is_direct_sample());
    assert!(SMaterial::glass().is_direct_sample());
    assert!(!SMaterial::white().is_direct_sample());
    assert!(!SMaterial::diffuse(1, 2, 3).is_direct_sample());
    assert!(SMaterial(0x4000_0000).is_direct_sample());
    assert!(!SMaterial(0xbfff_ffff).is_direct_sample());
}

#[test]
fn emissive_is_the_sign_bit() {
    assert!(SMaterial::sky().is_emissive());
    assert!(!SMaterial::glass().is_emissive());
    assert!(!SMaterial::white().is_emissive());
    assert!(SMaterial(0x8000_0000).is_emissive());
    assert!(!SMaterial(0x7fff_ffff).is_emissive());
}

#[test]
fn texture_index_is_the_low_three_bits() {
    assert_eq!(SMaterial(0).get_texture(), 0);
    assert_eq!(SMaterial(5).get_texture(), 5);
    assert_eq!(SMaterial(0xffff_fff8).get_texture(), 0);
    assert_eq!(SMaterial(0x8000_000b).get_texture(), 3);
    let m = Mf32(0, 1, 7, 8, 9, 0xffff_ffff, 0x8000_0002, 0x4000_0004);
    assert_eq!(m.get_texture(), Mi32(0, 1, 7, 0, 1, 7, 2, 4));
}

#[test]
fn broadcast_moves_the_bits_of_the_material() {
    assert_eq!(Mf32::broadcast_material(SMaterial::glass()), Mf32::broadcast(0x6000_0000));
    assert_eq!(Mf32::sky(), Mf32::broadcast(0xc000_0000));
    assert!(Mf32::sky().all_sign_bits_negative());
    // The bits of the sky read as a number are -2: no bit was converted.
    assert_eq!(f32::from_bits(Mf32::sky().0), -2.0);
}

fn splat(x: f32, y: f32, z: f32) -> MVector3 {
    MVector3::broadcast(SVector3::new(x.to_bits(), y.to_bits(), z.to_bits()))
}

#[test]
fn a_bounce_is_taken_by_the_lanes_that_go_on() {
    let t = 0xffff_ffff;
    let ray = MRay { origin: splat(1.0, 2.0, 3.0), direction: splat(0.0, 0.0, 1.0), active: Mf32(0, 0, t, t, 0, 0, t, 0) };
    let isect = MIntersection {
        position: splat(1.0, 2.0, 5.0),
        normal: splat(0.0, 0.0, -1.0),
        distance: Mf32::broadcast(2.0_f32.to_bits()),
        material: Mf32(0, 0xc000_0000, 0, 0xc000_0000, 0x00ff_ffff, 0x6000_0000, 0, 0x8000_0000),
    };
    let bounce = Bounce {
        ray: MRay::new(splat(1.0, 2.0, 4.9), splat(0.0, 1.0, 0.0)),
        color_mod: splat(0.5, 0.5, 0.5),
        tex_coords: (Mf32::zero(), Mf32::zero()),
        fresnel: Mf32::zero(),
    };
    let (new_ray, color_mod) = mask_bounce(&ray, &isect, &bounce);
    let done = [false, true, true, true, false, false, true, true];
    for k in 0..8 {
        let origin_z = f32::from_bits(new_ray.origin.z.as_slice()[k]);
        let direction_y = f32::from_bits(new_ray.direction.y.as_slice()[k]);
        let factor = f32::from_bits(color_mod.x.as_slice()[k]);
        let active = new_ray.active.as_slice()[k];
        assert_eq!(active & 0x8000_0000 != 0, done[k]);
        assert_eq!(active, ray.active.as_slice()[k] | isect.material.as_slice()[k]);
        if done[k] {
            assert_eq!((origin_z, direction_y, factor), (3.0, 0.0, 1.0));
        } else {
            assert_eq!((origin_z, direction_y, factor), (4.9, 1.0, 0.5));
        }
    }
}
