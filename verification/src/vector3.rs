//! Three-dimensional vectors, single and in packets of eight, as bit patterns.

use vstd::prelude::*;
use crate::lane::is_nan;
use crate::simd::{Mask, Mf32};

verus! {

/// One of the three coordinate axes.
#[derive(Copy, Clone, Debug, PartialEq, Eq, Structural)]
pub enum Axis {
    X,
    Y,
    Z,
}

/// A vector of three single-precision coordinates, each held as its bit pattern.
#[derive(Copy, Clone, Debug, PartialEq, Eq, Structural)]
pub struct SVector3 {
    pub x: u32,
    pub y: u32,
    pub z: u32,
}

/// Eight vectors side by side: lane `k` of the three packets is vector `k`.
#[derive(Copy, Clone, Debug, PartialEq, Eq, Structural)]
pub struct MVector3 {
    pub x: Mf32,
    pub y: Mf32,
    pub z: Mf32,
}

impl SVector3 {
    /// The coordinate along `axis`.
    pub open spec fn coord(self, axis: Axis) -> u32 {
        match axis {
            Axis::X => self.x,
            Axis::Y => self.y,
            Axis::Z => self.z,
        }
    }

    /// Whether no coordinate is a NaN.
    pub open spec fn is_number(self) -> bool {
        !is_nan(self.x) && !is_nan(self.y) && !is_nan(self.z)
    }

    /// The opposite vector: the sign bit of every coordinate flipped.
    pub open spec fn negated(self) -> SVector3 {
        SVector3 { x: flip_sign(self.x), y: flip_sign(self.y), z: flip_sign(self.z) }
    }

    pub fn new(x: u32, y: u32, z: u32) -> (r: SVector3)
        ensures
            r == (SVector3 { x, y, z }),
    {
        SVector3 { x, y, z }
    }

    /// The vector whose coordinates are all zero.
    pub fn zero() -> (r: SVector3)
        ensures
            r == (SVector3 { x: 0, y: 0, z: 0 }),
    {
        SVector3 { x: 0, y: 0, z: 0 }
    }

    /// Returns the coordinate along `axis`.
    pub fn get_coord(self, axis: Axis) -> (r: u32)
        ensures
            r == self.coord(axis),
    {
        match axis {
            Axis::X => self.x,
            Axis::Y => self.y,
            Axis::Z => self.z,
        }
    }
}

/// Negation flips the sign bit of every coordinate and leaves the rest alone.
pub open spec fn flip_sign(bits: u32) -> u32 {
    if bits >= 0x8000_0000 {
        (bits - 0x8000_0000) as u32
    } else {
        (bits + 0x8000_0000) as u32
    }
}

/// Written for unary minus on a vector.
impl core::ops::Neg for SVector3 {
    type Output = SVector3;

    fn neg(self) -> (r: SVector3) {
        SVector3 { x: negate(self.x), y: negate(self.y), z: negate(self.z) }
    }
}

impl vstd::std_specs::ops::NegSpecImpl for SVector3 {
    open spec fn obeys_neg_spec() -> bool {
        true
    }

    open spec fn neg_req(self) -> bool {
        true
    }

    open spec fn neg_spec(self) -> SVector3 {
        self.negated()
    }
}

/// Flips the sign bit of one value.
pub fn negate(bits: u32) -> (r: u32)
    ensures
        r == flip_sign(bits),
{
    if bits >= 0x8000_0000 {
        bits - 0x8000_0000
    } else {
        bits + 0x8000_0000
    }
}

impl MVector3 {
    /// Vector `k` of the packet.
    pub open spec fn lane(self, k: int) -> SVector3 {
        SVector3 { x: self.x.lane(k), y: self.y.lane(k), z: self.z.lane(k) }
    }

    /// The packet that holds `v` in every lane.
    pub open spec fn splat(v: SVector3) -> MVector3 {
        MVector3 { x: Mf32::splat(v.x), y: Mf32::splat(v.y), z: Mf32::splat(v.z) }
    }

    /// The packet of coordinates along `axis`.
    pub open spec fn coord(self, axis: Axis) -> Mf32 {
        match axis {
            Axis::X => self.x,
            Axis::Y => self.y,
            Axis::Z => self.z,
        }
    }

    /// Lane by lane, the vector of `other` where the mask is set, else that of `self`.
    pub open spec fn select(self, other: MVector3, mask: Mask) -> MVector3 {
        MVector3 {
            x: self.x.select(other.x, mask),
            y: self.y.select(other.y, mask),
            z: self.z.select(other.z, mask),
        }
    }

    /// Lane by lane, the vector of `other` where `take` says so, else that of `self`.
    pub open spec fn merge(self, other: MVector3, take: spec_fn(int) -> bool) -> MVector3 {
        MVector3 {
            x: self.x.merge(other.x, take),
            y: self.y.merge(other.y, take),
            z: self.z.merge(other.z, take),
        }
    }

    pub fn new(x: Mf32, y: Mf32, z: Mf32) -> (r: MVector3)
        ensures
            r == (MVector3 { x, y, z }),
    {
        MVector3 { x, y, z }
    }

    /// Eight zero vectors.
    pub fn zero() -> (r: MVector3)
        ensures
            r == MVector3::splat(SVector3 { x: 0, y: 0, z: 0 }),
    {
        MVector3 { x: Mf32::zero(), y: Mf32::zero(), z: Mf32::zero() }
    }

    /// Copies one vector into every lane.
    pub fn broadcast(v: SVector3) -> (r: MVector3)
        ensures
            r == MVector3::splat(v),
    {
        MVector3 { x: Mf32::broadcast(v.x), y: Mf32::broadcast(v.y), z: Mf32::broadcast(v.z) }
    }

    /// Builds a packet by applying the function to the numbers 0..7, in order.
    /// This is a transpose: eight vectors in, three packets out.
    pub fn generate<F: Fn(usize) -> SVector3>(f: F) -> (r: MVector3)
        requires
            forall|k: usize| 0 <= k < 8 ==> call_requires(f, (k,)),
        ensures
            forall|k: usize| 0 <= k < 8 ==> call_ensures(f, (k,), #[trigger] r.lane(k as int)),
    {
        let v0 = f(0);
        let v1 = f(1);
        let v2 = f(2);
        let v3 = f(3);
        let v4 = f(4);
        let v5 = f(5);
        let v6 = f(6);
        let v7 = f(7);
        MVector3 {
            x: Mf32(v0.x, v1.x, v2.x, v3.x, v4.x, v5.x, v6.x, v7.x),
            y: Mf32(v0.y, v1.y, v2.y, v3.y, v4.y, v5.y, v6.y, v7.y),
            z: Mf32(v0.z, v1.z, v2.z, v3.z, v4.z, v5.z, v6.z, v7.z),
        }
    }

    /// Returns the packet of coordinates along `axis`.
    pub fn get_coord(self, axis: Axis) -> (r: Mf32)
        ensures
            r == self.coord(axis),
    {
        match axis {
            Axis::X => self.x,
            Axis::Y => self.y,
            Axis::Z => self.z,
        }
    }

    /// Picks, lane by lane, the vector of `self` where the sign bit of the mask
    /// is clear and the vector of `other` where it is set.
    pub fn pick(self, other: MVector3, mask: Mask) -> (r: MVector3)
        ensures
            r == self.select(other, mask),
    {
        MVector3 {
            x: self.x.pick(other.x, mask),
            y: self.y.pick(other.y, mask),
            z: self.z.pick(other.z, mask),
        }
    }
}

} // verus!
