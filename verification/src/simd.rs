//! Eight-lane packets and the lane-wise operations that need no arithmetic:
//! masks, comparisons, minimum, maximum and selection by sign bit.

use vstd::prelude::*;
use crate::lane;
use crate::lane::{less, mask_of, max_of, min_of, pick_of, sign_set};

verus! {

/// Eight single-precision lanes, each held as its bit pattern.
#[derive(Copy, Clone, Debug, PartialEq, Eq, Structural)]
pub struct Mf32(pub u32, pub u32, pub u32, pub u32, pub u32, pub u32, pub u32, pub u32);

/// A packet read as eight truth values: a lane is true where its sign bit is set.
pub type Mask = Mf32;

impl Mf32 {
    /// Lane `k` of the packet.
    pub open spec fn lane(self, k: int) -> u32 {
        if k == 0 {
            self.0
        } else if k == 1 {
            self.1
        } else if k == 2 {
            self.2
        } else if k == 3 {
            self.3
        } else if k == 4 {
            self.4
        } else if k == 5 {
            self.5
        } else if k == 6 {
            self.6
        } else {
            self.7
        }
    }

    /// The packet whose every lane is `x`.
    pub open spec fn splat(x: u32) -> Mf32 {
        Mf32(x, x, x, x, x, x, x, x)
    }

    /// The packet made by applying `f` to each lane.
    pub open spec fn map(self, f: spec_fn(u32) -> u32) -> Mf32 {
        Mf32(f(self.0), f(self.1), f(self.2), f(self.3), f(self.4), f(self.5), f(self.6), f(self.7))
    }

    /// The packet made by applying `f` to each pair of lanes.
    pub open spec fn zip(self, other: Mf32, f: spec_fn(u32, u32) -> u32) -> Mf32 {
        Mf32(
            f(self.0, other.0),
            f(self.1, other.1),
            f(self.2, other.2),
            f(self.3, other.3),
            f(self.4, other.4),
            f(self.5, other.5),
            f(self.6, other.6),
            f(self.7, other.7),
        )
    }

    /// The packet that holds the lane of `other` where the sign bit of the mask
    /// is set, and the lane of `self` elsewhere.
    pub open spec fn select(self, other: Mf32, mask: Mask) -> Mf32 {
        Mf32(
            pick_of(self.0, other.0, mask.0),
            pick_of(self.1, other.1, mask.1),
            pick_of(self.2, other.2, mask.2),
            pick_of(self.3, other.3, mask.3),
            pick_of(self.4, other.4, mask.4),
            pick_of(self.5, other.5, mask.5),
            pick_of(self.6, other.6, mask.6),
            pick_of(self.7, other.7, mask.7),
        )
    }

    /// The packet that holds the lane of `other` where `take` says so, and the
    /// lane of `self` elsewhere.
    pub open spec fn merge(self, other: Mf32, take: spec_fn(int) -> bool) -> Mf32 {
        Mf32(
            if take(0) { other.0 } else { self.0 },
            if take(1) { other.1 } else { self.1 },
            if take(2) { other.2 } else { self.2 },
            if take(3) { other.3 } else { self.3 },
            if take(4) { other.4 } else { self.4 },
            if take(5) { other.5 } else { self.5 },
            if take(6) { other.6 } else { self.6 },
            if take(7) { other.7 } else { self.7 },
        )
    }

    /// Whether some lane of the mask is true.
    pub open spec fn some_lane(self) -> bool {
        exists|k: int| 0 <= k < 8 && sign_set(#[trigger] self.lane(k))
    }

    /// Whether every lane of the mask is true.
    pub open spec fn every_lane(self) -> bool {
        forall|k: int| 0 <= k < 8 ==> sign_set(#[trigger] self.lane(k))
    }

    /// All lanes zero.
    pub fn zero() -> (r: Mf32)
        ensures
            r == Mf32::splat(0),
    {
        Mf32(0, 0, 0, 0, 0, 0, 0, 0)
    }

    /// All lanes one.
    pub fn one() -> (r: Mf32)
        ensures
            r == Mf32::splat(lane::ONE),
    {
        Mf32::broadcast(lane::ONE)
    }

    /// Builds a packet by applying the function to the numbers 0..7, in order.
    pub fn generate<F: Fn(usize) -> u32>(f: F) -> (r: Mf32)
        requires
            forall|k: usize| 0 <= k < 8 ==> call_requires(f, (k,)),
        ensures
            forall|k: usize| 0 <= k < 8 ==> call_ensures(f, (k,), #[trigger] r.lane(k as int)),
    {
        Mf32(f(0), f(1), f(2), f(3), f(4), f(5), f(6), f(7))
    }

    /// Copies one value into every lane.
    pub fn broadcast(x: u32) -> (r: Mf32)
        ensures
            r == Mf32::splat(x),
    {
        Mf32(x, x, x, x, x, x, x, x)
    }

    /// The lanes in order.
    pub fn as_slice(&self) -> (r: [u32; 8])
        ensures
            forall|k: int| 0 <= k < 8 ==> r[k] == self.lane(k),
    {
        [self.0, self.1, self.2, self.3, self.4, self.5, self.6, self.7]
    }

    /// Lane-wise maximum. A lane takes `other` unless `self` is strictly greater,
    /// so a NaN on either side yields the lane of `other`.
    pub fn max(self, other: Mf32) -> (r: Mf32)
        ensures
            r == self.zip(other, |a: u32, b: u32| max_of(a, b)),
    {
        Mf32(
            lane::max(self.0, other.0),
            lane::max(self.1, other.1),
            lane::max(self.2, other.2),
            lane::max(self.3, other.3),
            lane::max(self.4, other.4),
            lane::max(self.5, other.5),
            lane::max(self.6, other.6),
            lane::max(self.7, other.7),
        )
    }

    /// Lane-wise minimum. A lane takes `other` unless `self` is strictly less,
    /// so a NaN on either side yields the lane of `other`.
    pub fn min(self, other: Mf32) -> (r: Mf32)
        ensures
            r == self.zip(other, |a: u32, b: u32| min_of(a, b)),
    {
        Mf32(
            lane::min(self.0, other.0),
            lane::min(self.1, other.1),
            lane::min(self.2, other.2),
            lane::min(self.3, other.3),
            lane::min(self.4, other.4),
            lane::min(self.5, other.5),
            lane::min(self.6, other.6),
            lane::min(self.7, other.7),
        )
    }

    /// Lane-wise "not greater than": a lane is all ones where `self <= other`
    /// or where either side is a NaN, and zero elsewhere.
    pub fn leq(self, other: Mf32) -> (r: Mask)
        ensures
            r == self.zip(other, |a: u32, b: u32| mask_of(!less(b, a))),
    {
        Mf32(
            lane::leq(self.0, other.0),
            lane::leq(self.1, other.1),
            lane::leq(self.2, other.2),
            lane::leq(self.3, other.3),
            lane::leq(self.4, other.4),
            lane::leq(self.5, other.5),
            lane::leq(self.6, other.6),
            lane::leq(self.7, other.7),
        )
    }

    /// Lane-wise "not less than": a lane is all ones where `self >= other`
    /// or where either side is a NaN, and zero elsewhere.
    pub fn geq(self, other: Mf32) -> (r: Mask)
        ensures
            r == self.zip(other, |a: u32, b: u32| mask_of(!less(a, b))),
    {
        Mf32(
            lane::geq(self.0, other.0),
            lane::geq(self.1, other.1),
            lane::geq(self.2, other.2),
            lane::geq(self.3, other.3),
            lane::geq(self.4, other.4),
            lane::geq(self.5, other.5),
            lane::geq(self.6, other.6),
            lane::geq(self.7, other.7),
        )
    }

    /// Returns whether any lane that the mask selects has a clear sign bit.
    pub fn any_positive_masked(self, mask: Mask) -> (r: bool)
        ensures
            r == exists|k: int|
                0 <= k < 8 && !sign_set(#[trigger] self.lane(k)) && sign_set(mask.lane(k)),
    {
        let r = (!lane::has_sign(self.0) && lane::has_sign(mask.0))
            || (!lane::has_sign(self.1) && lane::has_sign(mask.1))
            || (!lane::has_sign(self.2) && lane::has_sign(mask.2))
            || (!lane::has_sign(self.3) && lane::has_sign(mask.3))
            || (!lane::has_sign(self.4) && lane::has_sign(mask.4))
            || (!lane::has_sign(self.5) && lane::has_sign(mask.5))
            || (!lane::has_sign(self.6) && lane::has_sign(mask.6))
            || (!lane::has_sign(self.7) && lane::has_sign(mask.7));
        proof {
            if r {
                let k: int = if !sign_set(self.0) && sign_set(mask.0) {
                    0
                } else if !sign_set(self.1) && sign_set(mask.1) {
                    1
                } else if !sign_set(self.2) && sign_set(mask.2) {
                    2
                } else if !sign_set(self.3) && sign_set(mask.3) {
                    3
                } else if !sign_set(self.4) && sign_set(mask.4) {
                    4
                } else if !sign_set(self.5) && sign_set(mask.5) {
                    5
                } else if !sign_set(self.6) && sign_set(mask.6) {
                    6
                } else {
                    7
                };
                assert(!sign_set(self.lane(k)) && sign_set(mask.lane(k)));
            }
        }
        r
    }

    /// Returns whether the sign bit of every lane is set.
    pub fn all_sign_bits_negative(self) -> (r: bool)
        ensures
            r == self.every_lane(),
    {
        let r = lane::has_sign(self.0) && lane::has_sign(self.1) && lane::has_sign(self.2)
            && lane::has_sign(self.3) && lane::has_sign(self.4) && lane::has_sign(self.5)
            && lane::has_sign(self.6) && lane::has_sign(self.7);
        proof {
            if !r {
                let k: int = if !sign_set(self.0) {
                    0
                } else if !sign_set(self.1) {
                    1
                } else if !sign_set(self.2) {
                    2
                } else if !sign_set(self.3) {
                    3
                } else if !sign_set(self.4) {
                    4
                } else if !sign_set(self.5) {
                    5
                } else if !sign_set(self.6) {
                    6
                } else {
                    7
                };
                assert(!sign_set(self.lane(k)));
            }
        }
        r
    }

    /// Returns whether the sign bit of some lane is set.
    pub fn any_sign_bit_negative(self) -> (r: bool)
        ensures
            r == self.some_lane(),
    {
        let r = lane::has_sign(self.0) || lane::has_sign(self.1) || lane::has_sign(self.2)
            || lane::has_sign(self.3) || lane::has_sign(self.4) || lane::has_sign(self.5)
            || lane::has_sign(self.6) || lane::has_sign(self.7);
        proof {
            if r {
                let k: int = if sign_set(self.0) {
                    0
                } else if sign_set(self.1) {
                    1
                } else if sign_set(self.2) {
                    2
                } else if sign_set(self.3) {
                    3
                } else if sign_set(self.4) {
                    4
                } else if sign_set(self.5) {
                    5
                } else if sign_set(self.6) {
                    6
                } else {
                    7
                };
                assert(sign_set(self.lane(k)));
            }
        }
        r
    }

    /// Picks the lane of `self` where the sign bit of the mask is clear,
    /// and the lane of `other` where it is set.
    pub fn pick(self, other: Mf32, mask: Mask) -> (r: Mf32)
        ensures
            r == self.select(other, mask),
    {
        Mf32(
            lane::pick(self.0, other.0, mask.0),
            lane::pick(self.1, other.1, mask.1),
            lane::pick(self.2, other.2, mask.2),
            lane::pick(self.3, other.3, mask.3),
            lane::pick(self.4, other.4, mask.4),
            lane::pick(self.5, other.5, mask.5),
            lane::pick(self.6, other.6, mask.6),
            lane::pick(self.7, other.7, mask.7),
        )
    }
}

/// Written for `&` on masks: the lane-wise bitwise conjunction.
impl core::ops::BitAnd<Mask> for Mask {
    type Output = Mask;

    fn bitand(self, other: Mask) -> (r: Mask) {
        Mf32(
            self.0 & other.0,
            self.1 & other.1,
            self.2 & other.2,
            self.3 & other.3,
            self.4 & other.4,
            self.5 & other.5,
            self.6 & other.6,
            self.7 & other.7,
        )
    }
}

impl vstd::std_specs::ops::BitAndSpecImpl<Mask> for Mask {
    open spec fn obeys_bitand_spec() -> bool {
        true
    }

    open spec fn bitand_req(self, other: Mask) -> bool {
        true
    }

    open spec fn bitand_spec(self, other: Mask) -> Mask {
        self.zip(other, |a: u32, b: u32| a & b)
    }
}

/// Written for `|` on masks: the lane-wise bitwise disjunction.
impl core::ops::BitOr<Mask> for Mask {
    type Output = Mask;

    fn bitor(self, other: Mask) -> (r: Mask) {
        Mf32(
            self.0 | other.0,
            self.1 | other.1,
            self.2 | other.2,
            self.3 | other.3,
            self.4 | other.4,
            self.5 | other.5,
            self.6 | other.6,
            self.7 | other.7,
        )
    }
}

impl vstd::std_specs::ops::BitOrSpecImpl<Mask> for Mask {
    open spec fn obeys_bitor_spec() -> bool {
        true
    }

    open spec fn bitor_req(self, other: Mask) -> bool {
        true
    }

    open spec fn bitor_spec(self, other: Mask) -> Mask {
        self.zip(other, |a: u32, b: u32| a | b)
    }
}

/// Written for `!` on masks: the lane-wise bitwise complement.
impl core::ops::Not for Mask {
    type Output = Mask;

    fn not(self) -> (r: Mask) {
        Mf32(!self.0, !self.1, !self.2, !self.3, !self.4, !self.5, !self.6, !self.7)
    }
}

impl vstd::std_specs::ops::NotSpecImpl for Mask {
    open spec fn obeys_not_spec() -> bool {
        true
    }

    open spec fn not_req(self) -> bool {
        true
    }

    open spec fn not_spec(self) -> Mask {
        self.map(|a: u32| !a)
    }
}

/// Eight 32-bit integer lanes, held as unsigned bit patterns. In a bitmap one
/// such packet is eight pixels side by side.
#[derive(Copy, Clone, Debug, PartialEq, Eq, Structural)]
pub struct Mi32(pub u32, pub u32, pub u32, pub u32, pub u32, pub u32, pub u32, pub u32);

impl Mi32 {
    /// Lane `k` of the packet.
    pub open spec fn lane(self, k: int) -> u32 {
        if k == 0 {
            self.0
        } else if k == 1 {
            self.1
        } else if k == 2 {
            self.2
        } else if k == 3 {
            self.3
        } else if k == 4 {
            self.4
        } else if k == 5 {
            self.5
        } else if k == 6 {
            self.6
        } else {
            self.7
        }
    }

    /// The packet whose every lane is `x`.
    pub open spec fn splat(x: u32) -> Mi32 {
        Mi32(x, x, x, x, x, x, x, x)
    }

    /// The packet made by applying `f` to each pair of lanes.
    pub open spec fn zip(self, other: Mi32, f: spec_fn(u32, u32) -> u32) -> Mi32 {
        Mi32(
            f(self.0, other.0),
            f(self.1, other.1),
            f(self.2, other.2),
            f(self.3, other.3),
            f(self.4, other.4),
            f(self.5, other.5),
            f(self.6, other.6),
            f(self.7, other.7),
        )
    }

    /// All lanes zero.
    pub fn zero() -> (r: Mi32)
        ensures
            r == Mi32::splat(0),
    {
        Mi32(0, 0, 0, 0, 0, 0, 0, 0)
    }

    /// Copies one value into every lane.
    pub fn broadcast(x: u32) -> (r: Mi32)
        ensures
            r == Mi32::splat(x),
    {
        Mi32(x, x, x, x, x, x, x, x)
    }

    /// Applies the function to each lane, in order.
    pub fn map<F: Fn(u32) -> u32>(self, f: F) -> (r: Mi32)
        requires
            forall|x: u32| call_requires(f, (x,)),
        ensures
            forall|k: int| 0 <= k < 8 ==> call_ensures(f, (self.lane(k),), #[trigger] r.lane(k)),
    {
        Mi32(
            f(self.0),
            f(self.1),
            f(self.2),
            f(self.3),
            f(self.4),
            f(self.5),
            f(self.6),
            f(self.7),
        )
    }

    /// Shifts every lane to the left by `bits`; what leaves the lane is lost.
    pub fn shl(self, bits: u32) -> (r: Mi32)
        requires
            bits < 32,
        ensures
            r == Mi32(
                self.0 << bits,
                self.1 << bits,
                self.2 << bits,
                self.3 << bits,
                self.4 << bits,
                self.5 << bits,
                self.6 << bits,
                self.7 << bits,
            ),
    {
        Mi32(
            self.0 << bits,
            self.1 << bits,
            self.2 << bits,
            self.3 << bits,
            self.4 << bits,
            self.5 << bits,
            self.6 << bits,
            self.7 << bits,
        )
    }
}

/// Written for `&` on integer packets: the lane-wise bitwise conjunction.
impl core::ops::BitAnd<Mi32> for Mi32 {
    type Output = Mi32;

    fn bitand(self, other: Mi32) -> (r: Mi32) {
        Mi32(
            self.0 & other.0,
            self.1 & other.1,
            self.2 & other.2,
            self.3 & other.3,
            self.4 & other.4,
            self.5 & other.5,
            self.6 & other.6,
            self.7 & other.7,
        )
    }
}

impl vstd::std_specs::ops::BitAndSpecImpl<Mi32> for Mi32 {
    open spec fn obeys_bitand_spec() -> bool {
        true
    }

    open spec fn bitand_req(self, other: Mi32) -> bool {
        true
    }

    open spec fn bitand_spec(self, other: Mi32) -> Mi32 {
        self.zip(other, |a: u32, b: u32| a & b)
    }
}

/// Written for `|` on integer packets: the lane-wise bitwise disjunction.
impl core::ops::BitOr<Mi32> for Mi32 {
    type Output = Mi32;

    fn bitor(self, other: Mi32) -> (r: Mi32) {
        Mi32(
            self.0 | other.0,
            self.1 | other.1,
            self.2 | other.2,
            self.3 | other.3,
            self.4 | other.4,
            self.5 | other.5,
            self.6 | other.6,
            self.7 | other.7,
        )
    }
}

impl vstd::std_specs::ops::BitOrSpecImpl<Mi32> for Mi32 {
    open spec fn obeys_bitor_spec() -> bool {
        true
    }

    open spec fn bitor_req(self, other: Mi32) -> bool {
        true
    }

    open spec fn bitor_spec(self, other: Mi32) -> Mi32 {
        self.zip(other, |a: u32, b: u32| a | b)
    }
}

/// Selecting by a mask is merging by the sign bits of its lanes.
pub proof fn lemma_select_is_merge(a: Mf32, b: Mf32, mask: Mask, take: spec_fn(int) -> bool)
    requires
        forall|k: int| 0 <= k < 8 ==> sign_set(#[trigger] mask.lane(k)) == take(k),
    ensures
        a.select(b, mask) == a.merge(b, take),
{
    assert(sign_set(mask.lane(0)) == take(0));
    assert(sign_set(mask.lane(1)) == take(1));
    assert(sign_set(mask.lane(2)) == take(2));
    assert(sign_set(mask.lane(3)) == take(3));
    assert(sign_set(mask.lane(4)) == take(4));
    assert(sign_set(mask.lane(5)) == take(5));
    assert(sign_set(mask.lane(6)) == take(6));
    assert(sign_set(mask.lane(7)) == take(7));
}

/// The sign bit of a conjunction, a disjunction and a complement is the
/// conjunction, the disjunction and the complement of the sign bits.
pub proof fn lemma_sign_of_bit_ops(a: u32, b: u32)
    ensures
        sign_set(a & b) == (sign_set(a) && sign_set(b)),
        sign_set(a | b) == (sign_set(a) || sign_set(b)),
        sign_set(!a) == !sign_set(a),
{
    assert((a & b) >= 0x8000_0000u32 <==> (a >= 0x8000_0000u32 && b >= 0x8000_0000u32))
        by (bit_vector);
    assert((a | b) >= 0x8000_0000u32 <==> (a >= 0x8000_0000u32 || b >= 0x8000_0000u32))
        by (bit_vector);
    assert((!a) >= 0x8000_0000u32 <==> !(a >= 0x8000_0000u32)) by (bit_vector);
}

} // verus!
