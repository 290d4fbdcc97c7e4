//! Determines how light bounces off a surface.
//!
//! A material is a 32-bit value:
//!
//!  * Bit 31, the sign bit: the material is emissive. A path that hits it ends.
//!  * Bit 30: a primitive with this material is eligible for direct sampling.
//!  * Bit 29: the material is glass.
//!  * Bits 0-23 hold a diffuse colour, red in the least significant byte.
//!  * Bits 0-2 are read as the texture index, 0 to 7.
//!
//! The value rides in a packet lane next to the intersection data, as the bit
//! pattern that it is: the sign bit of the lane then says whether the lane hit
//! a light.

use vstd::prelude::*;
use crate::arithmetic::{Arithmetic, Bounce, Random};
use crate::lane;
use crate::lane::sign_set;
use crate::ray::{MIntersection, MRay};
use crate::simd::{Mf32, Mi32};
use crate::vector3::MVector3;

verus! {

/// A material, encoded as described for this module.
#[derive(Copy, Clone, Debug, PartialEq, Eq, Structural)]
pub struct SMaterial(pub u32);

/// Eight materials in the lanes of a packet.
pub type MMaterial = Mf32;

/// The colour bits of a diffuse material: blue, green, red from the top down.
pub open spec fn diffuse_bits(r: u8, g: u8, b: u8) -> u32 {
    (b as u32 * 0x1_0000 + g as u32 * 0x100 + r as u32) as u32
}

impl SMaterial {
    /// Whether the emissive bit is set.
    pub open spec fn emissive(self) -> bool {
        sign_set(self.0)
    }

    /// Whether the direct sampling bit is set.
    pub open spec fn direct_sample(self) -> bool {
        self.0 & 0x4000_0000 == 0x4000_0000
    }

    /// The sky: emissive and eligible for direct sampling, nothing else.
    pub fn sky() -> (r: SMaterial)
        ensures
            r == SMaterial(0xc000_0000),
            r.emissive(),
            r.direct_sample(),
    {
        let mat: u32 = 0xc000_0000;
        assert(0xc000_0000u32 & 0x4000_0000 == 0x4000_0000) by (bit_vector);
        SMaterial(mat)
    }

    /// A white diffuse material.
    pub fn white() -> (r: SMaterial)
        ensures
            r == SMaterial(0x00ff_ffff),
            !r.emissive(),
            !r.direct_sample(),
    {
        SMaterial::diffuse(255, 255, 255)
    }

    /// A diffuse material with the given colour.
    pub fn diffuse(r: u8, g: u8, b: u8) -> (m: SMaterial)
        ensures
            m == SMaterial(diffuse_bits(r, g, b)),
            m.0 < 0x100_0000,
            !m.emissive(),
            !m.direct_sample(),
    {
        let mat: u32 = ((b as u32) << 16) | ((g as u32) << 8) | (r as u32);
        assert(((b as u32) << 16) | ((g as u32) << 8) | (r as u32) == (b as u32 * 0x1_0000
            + g as u32 * 0x100 + r as u32) as u32) by (bit_vector);
        assert(diffuse_bits(r, g, b) & 0x4000_0000 != 0x4000_0000) by {
            let v = diffuse_bits(r, g, b);
            assert(v < 0x100_0000u32 ==> v & 0x4000_0000 == 0) by (bit_vector);
        }
        SMaterial(mat)
    }

    /// A transparent and reflective material.
    pub fn glass() -> (r: SMaterial)
        ensures
            r == SMaterial(0x6000_0000),
            !r.emissive(),
            r.direct_sample(),
    {
        let mat: u32 = 0x6000_0000;
        assert(0x6000_0000u32 & 0x4000_0000 == 0x4000_0000) by (bit_vector);
        SMaterial(mat)
    }

    /// Returns whether the material is eligible for direct sampling.
    pub fn is_direct_sample(&self) -> (r: bool)
        ensures
            r == self.direct_sample(),
    {
        let ds_mask: u32 = 0x4000_0000;
        let SMaterial(mat) = *self;
        (mat & ds_mask) == ds_mask
    }

    /// Returns whether the material emits light.
    pub fn is_emissive(&self) -> (r: bool)
        ensures
            r == self.emissive(),
    {
        self.0 >= 0x8000_0000
    }

    /// Returns the texture index, which is at most 7.
    pub fn get_texture(&self) -> (r: u32)
        ensures
            r == self.0 % 8,
            r == self.0 & 7,
    {
        let mat: u32 = self.0;
        assert(mat & 7 == mat % 8) by (bit_vector);
        mat & 7
    }
}

/// The ray and the colour factor after a bounce, lane by lane: a lane that has
/// ended its path, or ends it here on a light, keeps its ray and leaves the
/// colour as it is; any other lane takes the bounce.
pub open spec fn masked_bounce(ray: MRay, isect: MIntersection, bounce: Bounce) -> (
    MRay,
    MVector3,
) {
    let active = ray.active.zip(isect.material, |a: u32, m: u32| a | m);
    (
        MRay {
            origin: bounce.ray.origin.select(ray.origin, active),
            direction: bounce.ray.direction.select(ray.direction, active),
            active: active,
        },
        bounce.color_mod.select(MVector3::splat(crate::vector3::SVector3 {
            x: lane::ONE,
            y: lane::ONE,
            z: lane::ONE,
        }), active),
    )
}

/// Whether `r` is how a path goes on after it met `isect`: with the bounce
/// that the arithmetic gives for some direction on the hemisphere and the
/// surface at `isect`, masked with the lanes that are still on their way.
pub open spec fn continued<A: Arithmetic>(
    arithmetic: &A,
    ray: MRay,
    isect: MIntersection,
    r: (MRay, MVector3, Bounce),
) -> bool {
    &&& exists|sample: MVector3| call_ensures(A::diffuse_bounce, (arithmetic, sample, &isect), r.2)
    &&& (r.0, r.1) == masked_bounce(ray, isect, r.2)
}

/// Masks a bounce with the lanes that are still on their way.
///
/// Emissive materials have the sign bit set, and a sign bit of 1 means that
/// the ray is inactive. So hitting an emissive material deactivates the ray:
/// there is no need for an additional bounce.
pub fn mask_bounce(ray: &MRay, isect: &MIntersection, bounce: &Bounce) -> (r: (MRay, MVector3))
    ensures
        r == masked_bounce(*ray, *isect, *bounce),
        forall|k: int|
            0 <= k < 8 ==> sign_set(#[trigger] r.0.active.lane(k)) == (sign_set(
                ray.active.lane(k),
            ) || sign_set(isect.material.lane(k))),
{
    let active = ray.active | isect.material;
    let new_ray = MRay {
        origin: bounce.ray.origin.pick(ray.origin, active),
        direction: bounce.ray.direction.pick(ray.direction, active),
        active: active,
    };
    let white = MVector3::new(Mf32::one(), Mf32::one(), Mf32::one());
    let color_mod = bounce.color_mod.pick(white, active);
    proof {
        assert forall|k: int| 0 <= k < 8 implies sign_set(#[trigger] active.lane(k)) == (sign_set(
            ray.active.lane(k),
        ) || sign_set(isect.material.lane(k))) by {
            crate::simd::lemma_sign_of_bit_ops(ray.active.lane(k), isect.material.lane(k));
        }
    }
    (new_ray, color_mod)
}

/// Continues the path of a photon.
///
/// If a ray intersected a surface with a certain material, then this will
/// compute the ray that continues the light path. A factor to multiply the
/// final color by is returned as well, and what the G-buffer shows of the
/// surface. The bounce is diffuse, in a direction drawn from `rng`; the lanes
/// that take it are those of `mask_bounce`.
pub fn continue_path<A: Arithmetic, R: Random>(
    arithmetic: &A,
    ray: &MRay,
    isect: &MIntersection,
    rng: &mut R,
) -> (r: (MRay, MVector3, Bounce))
    ensures
        continued(arithmetic, *ray, *isect, r),
        (r.0, r.1) == masked_bounce(*ray, *isect, r.2),
        forall|k: int|
            0 <= k < 8 ==> sign_set(#[trigger] r.0.active.lane(k)) == (sign_set(
                ray.active.lane(k),
            ) || sign_set(isect.material.lane(k))),
{
    let sample = rng.sample_hemisphere_vector();
    let bounce = arithmetic.diffuse_bounce(sample, isect);
    let (new_ray, color_mod) = mask_bounce(ray, isect, &bounce);
    assert(call_ensures(A::diffuse_bounce, (arithmetic, sample, isect), bounce));
    (new_ray, color_mod, bounce)
}

impl Mf32 {
    /// Returns the texture index of the material in every lane.
    pub fn get_texture(self) -> (r: Mi32)
        ensures
            forall|k: int| 0 <= k < 8 ==> #[trigger] r.lane(k) == self.lane(k) % 8,
    {
        let r = Mi32(
            SMaterial(self.0).get_texture(),
            SMaterial(self.1).get_texture(),
            SMaterial(self.2).get_texture(),
            SMaterial(self.3).get_texture(),
            SMaterial(self.4).get_texture(),
            SMaterial(self.5).get_texture(),
            SMaterial(self.6).get_texture(),
            SMaterial(self.7).get_texture(),
        );
        r
    }

    /// Puts the bit pattern of the material into every lane. This is a move of
    /// bits, not a conversion of a number.
    pub fn broadcast_material(material: SMaterial) -> (r: MMaterial)
        ensures
            r == Mf32::splat(material.0),
    {
        let SMaterial(mat) = material;
        Mf32::broadcast(mat)
    }

    /// The sky material in every lane.
    pub fn sky() -> (r: MMaterial)
        ensures
            r == Mf32::splat(0xc000_0000),
            r.every_lane(),
    {
        Mf32::broadcast_material(SMaterial::sky())
    }
}

} // verus!
