use convector::lane;
use convector::simd::{Mask, Mf32, Mi32};

fn bits(x: f32) -> u32 {
    x.to_bits()
}

fn packet(v: [f32; 8]) -> Mf32 {
    Mf32(
        bits(v[0]),
        bits(v[1]),
        bits(v[2]),
        bits(v[3]),
        bits(v[4]),
        bits(v[5]),
        bits(v[6]),
        bits(v[7]),
    )
}

#[test]
fn mf32_broadcast_ps() {
    let a = Mf32::broadcast(bits(7.0));
    let b = packet([7.0, 7.0, 7.0, 7.0, 7.0, 7.0, 7.0, 7.0]);
    assert_eq!(a, b);
}

#[test]
fn mf32_any_positive_masked() {
    let a = packet([-2.0, -1.0, -0.0, 0.0, 1.0, 2.0, 3.0, 4.0]);
    let f1: u32 = 0xffffffff_u32;
    let f0: u32 = bits(0.0);

    assert!(a.any_positive_masked(Mf32(f1, f0, f1, f1, f1, f0, f0, f0)));
    assert!(a.any_positive_masked(Mf32(f1, f0, f1, f1, f0, f0, f0, f0)));
    assert!(!a.any_positive_masked(Mf32(f1, f0, f1, f0, f0, f0, f0, f0)));
    assert!(!a.any_positive_masked(Mf32(f1, f1, f0, f0, f0, f0, f0, f0)));
    assert!(a.any_positive_masked(Mf32(f1, f0, f0, f1, f0, f0, f0, f0)));
}

#[test]
fn zero_and_one_are_the_bit_patterns_of_the_numbers() {
    assert_eq!(Mf32::zero(), packet([0.0; 8]));
    assert_eq!(Mf32::one(), packet([1.0; 8]));
    assert_eq!(lane::ONE, bits(1.0));
    assert_eq!(lane::INFINITY, bits(f32::INFINITY));
}

#[test]
fn generate_applies_the_function_to_the_lane_numbers() {
    let a = Mf32::generate(|i| bits(i as f32 * 2.0));
    assert_eq!(a, packet([0.0, 2.0, 4.0, 6.0, 8.0, 10.0, 12.0, 14.0]));
    assert_eq!(a.as_slice(), [bits(0.0), bits(2.0), bits(4.0), bits(6.0), bits(8.0), bits(10.0), bits(12.0), bits(14.0)]);
}

/// Values that cover signs, zeros, subnormals, infinities and NaNs.
fn samples() -> Vec<f32> {
    vec![
        0.0,
        -0.0,
        1.0,
        -1.0,
        0.5,
        -0.5,
        1.0e-40,
        -1.0e-40,
        3.4e38,
        -3.4e38,
        f32::INFINITY,
        f32::NEG_INFINITY,
        f32::NAN,
        -f32::NAN,
        16.0,
        -16.0,
        1.0e-5,
        100000.0,
    ]
}

#[test]
fn lane_order_agrees_with_the_numbers() {
    for &a in &samples() {
        for &b in &samples() {
            assert_eq!(lane::lt(bits(a), bits(b)), a < b, "{} < {}", a, b);
            assert_eq!(lane::le(bits(a), bits(b)), a <= b, "{} <= {}", a, b);
        }
        assert_eq!(lane::nan(bits(a)), a.is_nan());
        assert_eq!(lane::has_sign(bits(a)), a.is_sign_negative());
    }
}

#[test]
fn lane_min_max_take_the_second_operand_on_ties_and_nans() {
    for &a in &samples() {
        for &b in &samples() {
            let min = if a < b { a } else { b };
            let max = if a > b { a } else { b };
            assert_eq!(lane::min(bits(a), bits(b)), bits(min));
            assert_eq!(lane::max(bits(a), bits(b)), bits(max));
        }
    }
    assert_eq!(lane::min(bits(0.0), bits(-0.0)), bits(-0.0));
    assert_eq!(lane::min(bits(-0.0), bits(0.0)), bits(0.0));
    assert_eq!(lane::max(bits(f32::NAN), bits(1.0)), bits(1.0));
    assert_eq!(lane::max(bits(1.0), bits(f32::NAN)), bits(f32::NAN));
}

#[test]
fn lane_comparisons_are_true_for_nans() {
    for &a in &samples() {
        for &b in &samples() {
            let leq = if !(a > b) { 0xffff_ffff } else { 0 };
            let geq = if !(a < b) { 0xffff_ffff } else { 0 };
            assert_eq!(lane::leq(bits(a), bits(b)), leq);
            assert_eq!(lane::geq(bits(a), bits(b)), geq);
        }
    }
}

#[test]
fn packet_operations_work_lane_by_lane() {
    let a = packet([-2.0, -1.0, -0.0, 0.0, 1.0, 2.0, 3.0, f32::NAN]);
    let b = packet([1.0, -3.0, 0.0, -0.0, 1.0, 5.0, -3.0, 4.0]);
    assert_eq!(a.min(b), packet([-2.0, -3.0, 0.0, -0.0, 1.0, 2.0, -3.0, 4.0]));
    assert_eq!(a.max(b), packet([1.0, -1.0, 0.0, -0.0, 1.0, 5.0, 3.0, 4.0]));
    let t = 0xffff_ffff;
    assert_eq!(a.leq(b), Mf32(t, 0, t, t, t, t, 0, t));
    assert_eq!(a.geq(b), Mf32(0, t, t, t, t, 0, t, t));
}

#[test]
fn pick_selects_by_the_sign_bit_of_the_mask() {
    let a = packet([1.0, 2.0, 3.0, 4.0, 5.0, 6.0, 7.0, 8.0]);
    let b = packet([-1.0, -2.0, -3.0, -4.0, -5.0, -6.0, -7.0, -8.0]);
    let mask: Mask = Mf32(0x8000_0000, 0, 0xffff_ffff, 0x7fff_ffff, bits(-0.0), bits(0.0), 1, 0xc000_0000);
    assert_eq!(a.pick(b, mask), packet([-1.0, 2.0, -3.0, 4.0, -5.0, 6.0, 7.0, -8.0]));
}

#[test]
fn mask_operators_are_bitwise() {
    let a: Mask = Mf32(0xffff_ffff, 0, 0xffff_ffff, 0, 0xf0f0_f0f0, 1, 2, 3);
    let b: Mask = Mf32(0xffff_ffff, 0xffff_ffff, 0, 0, 0x0ff0_0ff0, 3, 5, 4);
    assert_eq!(a & b, Mf32(0xffff_ffff, 0, 0, 0, 0x00f0_00f0, 1, 0, 0));
    assert_eq!(a | b, Mf32(0xffff_ffff, 0xffff_ffff, 0xffff_ffff, 0, 0xfff0_fff0, 3, 7, 7));
    assert_eq!(!a, Mf32(0, 0xffff_ffff, 0, 0xffff_ffff, 0x0f0f_0f0f, 0xffff_fffe, 0xffff_fffd, 0xffff_fffc));
}

#[test]
fn sign_reductions() {
    let none = packet([0.0; 8]);
    let all = packet([-1.0; 8]);
    let one = packet([0.0, 0.0, 0.0, -0.0, 0.0, 0.0, 0.0, 0.0]);
    assert!(!none.all_sign_bits_negative());
    assert!(all.all_sign_bits_negative());
    assert!(!one.all_sign_bits_negative());
    assert!(!none.any_sign_bit_negative());
    assert!(all.any_sign_bit_negative());
    assert!(one.any_sign_bit_negative());
}

#[test]
fn integer_packets() {
    let a = Mi32(1, 2, 3, 4, 5, 6, 7, 0x0100_0000);
    assert_eq!(a.shl(8), Mi32(0x100, 0x200, 0x300, 0x400, 0x500, 0x600, 0x700, 0));
    assert_eq!(a.map(|x| x + 1), Mi32(2, 3, 4, 5, 6, 7, 8, 0x0100_0001));
    assert_eq!(a & Mi32::broadcast(1), Mi32(1, 0, 1, 0, 1, 0, 1, 0));
    assert_eq!(a | Mi32::broadcast(1), Mi32(1, 3, 3, 5, 5, 7, 7, 0x0100_0001));
    assert_eq!(Mi32::zero(), Mi32::broadcast(0));
}
