//! Single-precision values as IEEE-754 bit patterns: sign, ordering, selection.

use vstd::prelude::*;
use vstd::arithmetic::power2::{
    lemma_pow2_pos, lemma_pow2_strictly_increases, lemma_pow2_unfold, pow2,
};

verus! {

/// The bit that holds the sign of a lane.
pub const SIGN_BIT: u32 = 0x8000_0000;

/// Positive infinity; every larger magnitude is a NaN.
pub const INFINITY: u32 = 0x7f80_0000;

/// The value 1.
pub const ONE: u32 = 0x3f80_0000;

/// A lane with every bit set, which is what a comparison yields for "true".
pub const ALL_ONES: u32 = 0xffff_ffff;

/// Whether the sign bit of the pattern is set.
pub open spec fn sign_set(bits: u32) -> bool {
    bits >= 0x8000_0000
}

/// The pattern without its sign bit.
pub open spec fn magnitude(bits: u32) -> int {
    if bits >= 0x8000_0000 {
        bits - 0x8000_0000
    } else {
        bits as int
    }
}

/// Whether the pattern encodes a NaN.
pub open spec fn is_nan(bits: u32) -> bool {
    magnitude(bits) > 0x7f80_0000
}

/// An integer that orders patterns as the values they encode are ordered.
/// Both zeros map to 0; the key is meaningful for every pattern but a NaN.
pub open spec fn order_key(bits: u32) -> int {
    if sign_set(bits) {
        -magnitude(bits)
    } else {
        magnitude(bits)
    }
}

/// The magnitude that a pattern encodes, times 2^149, which makes it an
/// integer: the fraction alone where the exponent bits are zero, else the
/// fraction with a leading one, doubled once less than the exponent bits say.
/// An infinity counts as the power of two above every finite value.
pub open spec fn scaled_magnitude(bits: u32) -> int {
    let m = magnitude(bits);
    let exponent = m / 0x80_0000;
    let fraction = m % 0x80_0000;
    if exponent == 0 {
        fraction
    } else {
        (0x80_0000 + fraction) * pow2((exponent - 1) as nat)
    }
}

/// The value that a pattern encodes, times 2^149.
pub open spec fn scaled_value(bits: u32) -> int {
    if sign_set(bits) {
        -scaled_magnitude(bits)
    } else {
        scaled_magnitude(bits)
    }
}

/// The ordered comparison `a < b`: false as soon as either side is a NaN.
pub open spec fn less(a: u32, b: u32) -> bool {
    !is_nan(a) && !is_nan(b) && order_key(a) < order_key(b)
}

/// The ordered comparison `a <= b`: false as soon as either side is a NaN.
pub open spec fn less_eq(a: u32, b: u32) -> bool {
    !is_nan(a) && !is_nan(b) && order_key(a) <= order_key(b)
}

/// The smaller lane as the packed minimum instruction defines it: the second
/// operand unless the first is strictly less.
pub open spec fn min_of(a: u32, b: u32) -> u32 {
    if less(a, b) {
        a
    } else {
        b
    }
}

/// The larger lane as the packed maximum instruction defines it: the second
/// operand unless the first is strictly greater.
pub open spec fn max_of(a: u32, b: u32) -> u32 {
    if less(b, a) {
        a
    } else {
        b
    }
}

/// A full mask lane for true, an empty one for false.
pub open spec fn mask_of(flag: bool) -> u32 {
    if flag {
        0xffff_ffff
    } else {
        0
    }
}

/// `b` where the sign bit of `mask` is set, else `a`.
pub open spec fn pick_of(a: u32, b: u32, mask: u32) -> u32 {
    if sign_set(mask) {
        b
    } else {
        a
    }
}

/// Returns whether the sign bit is set.
pub fn has_sign(bits: u32) -> (r: bool)
    ensures
        r == sign_set(bits),
{
    bits >= SIGN_BIT
}

/// Returns whether the pattern is a NaN.
pub fn nan(bits: u32) -> (r: bool)
    ensures
        r == is_nan(bits),
{
    let m: u32 = if bits >= SIGN_BIT { bits - SIGN_BIT } else { bits };
    m > INFINITY
}

/// Computes the ordering key of a pattern.
pub fn key(bits: u32) -> (r: i64)
    ensures
        r == order_key(bits),
{
    if bits >= SIGN_BIT {
        let m: u32 = bits - SIGN_BIT;
        let k: i64 = m as i64;
        -k
    } else {
        bits as i64
    }
}

/// Ordered `a < b`.
pub fn lt(a: u32, b: u32) -> (r: bool)
    ensures
        r == less(a, b),
{
    !nan(a) && !nan(b) && key(a) < key(b)
}

/// Ordered `a <= b`.
pub fn le(a: u32, b: u32) -> (r: bool)
    ensures
        r == less_eq(a, b),
{
    !nan(a) && !nan(b) && key(a) <= key(b)
}

/// Lane minimum, second operand on ties and NaNs.
pub fn min(a: u32, b: u32) -> (r: u32)
    ensures
        r == min_of(a, b),
{
    if lt(a, b) { a } else { b }
}

/// Lane maximum, second operand on ties and NaNs.
pub fn max(a: u32, b: u32) -> (r: u32)
    ensures
        r == max_of(a, b),
{
    if lt(b, a) { a } else { b }
}

/// The mask lane for "not greater than": set when `a <= b` or either is a NaN.
pub fn leq(a: u32, b: u32) -> (r: u32)
    ensures
        r == mask_of(!less(b, a)),
{
    if lt(b, a) { 0 } else { ALL_ONES }
}

/// The mask lane for "not less than": set when `a >= b` or either is a NaN.
pub fn geq(a: u32, b: u32) -> (r: u32)
    ensures
        r == mask_of(!less(a, b)),
{
    if lt(a, b) { 0 } else { ALL_ONES }
}

/// Selects `b` where the sign bit of `mask` is set, else `a`.
pub fn pick(a: u32, b: u32, mask: u32) -> (r: u32)
    ensures
        r == pick_of(a, b, mask),
{
    if mask >= SIGN_BIT { b } else { a }
}

/// A greater magnitude in bits is a greater magnitude in value.
proof fn lemma_scaled_magnitude_increases(a: u32, b: u32)
    requires
        magnitude(a) < magnitude(b),
    ensures
        scaled_magnitude(a) < scaled_magnitude(b),
{
    let (ea, fa) = (magnitude(a) / 0x80_0000, magnitude(a) % 0x80_0000);
    let (eb, fb) = (magnitude(b) / 0x80_0000, magnitude(b) % 0x80_0000);
    assert(ea <= eb);
    if eb > 0 {
        let pb = pow2((eb - 1) as nat) as int;
        lemma_pow2_pos((eb - 1) as nat);
        if ea == eb {
            assert((0x80_0000 + fa) * pb < (0x80_0000 + fb) * pb) by (nonlinear_arith)
                requires
                    fa < fb,
                    pb > 0,
            ;
        } else if ea == 0 {
            assert(0x80_0000 * 1 <= (0x80_0000 + fb) * pb) by (nonlinear_arith)
                requires
                    0 <= fb,
                    pb >= 1,
            ;
        } else {
            // The greatest value of one exponent is less than the least of the next.
            let pa = pow2((ea - 1) as nat) as int;
            let next = pow2(ea as nat) as int;
            lemma_pow2_pos((ea - 1) as nat);
            lemma_pow2_unfold(ea as nat);
            assert(next == 2 * pa);
            if ea < eb - 1 {
                lemma_pow2_strictly_increases(ea as nat, (eb - 1) as nat);
            }
            assert(next <= pb);
            assert((0x80_0000 + fa) * pa < 0x80_0000 * (2 * pa)) by (nonlinear_arith)
                requires
                    0 <= fa < 0x80_0000,
                    pa > 0,
            ;
            assert(0x80_0000 * next <= (0x80_0000 + fb) * pb) by (nonlinear_arith)
                requires
                    0 <= fb,
                    0 < next <= pb,
            ;
        }
    }
}

/// The key orders the bit patterns as the values that they encode are ordered:
/// a lesser key is a lesser value, and an equal key an equal value. The two
/// zeros are equal. So the comparisons of this module are the comparisons of
/// the numbers, whenever neither side is a NaN.
pub proof fn lemma_key_orders_values(a: u32, b: u32)
    ensures
        order_key(a) < order_key(b) <==> scaled_value(a) < scaled_value(b),
        order_key(a) == order_key(b) <==> scaled_value(a) == scaled_value(b),
        !is_nan(a) && !is_nan(b) ==> (less(a, b) <==> scaled_value(a) < scaled_value(b)),
        !is_nan(a) && !is_nan(b) ==> (less_eq(a, b) <==> scaled_value(a) <= scaled_value(b)),
{
    if magnitude(a) < magnitude(b) {
        lemma_scaled_magnitude_increases(a, b);
    }
    if magnitude(b) < magnitude(a) {
        lemma_scaled_magnitude_increases(b, a);
    }
    lemma_scaled_nonnegative(a);
    lemma_scaled_nonnegative(b);
}

/// No magnitude is negative, and only that of a zero is zero.
proof fn lemma_scaled_nonnegative(a: u32)
    ensures
        scaled_magnitude(a) >= 0,
        scaled_magnitude(a) == 0 <==> magnitude(a) == 0,
{
    let (e, f) = (magnitude(a) / 0x80_0000, magnitude(a) % 0x80_0000);
    if e > 0 {
        let p = pow2((e - 1) as nat) as int;
        lemma_pow2_pos((e - 1) as nat);
        assert((0x80_0000 + f) * p > 0) by (nonlinear_arith)
            requires
                0 <= f,
                p > 0,
        ;
    }
}

} // verus!
