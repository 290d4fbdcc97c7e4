use convector::random::Rng;
use convector::simd::Mi32;

fn lanes(m: Mi32) -> [u32; 8] {
    [m.0, m.1, m.2, m.3, m.4, m.5, m.6, m.7]
}

#[test]
fn the_same_seed_gives_the_same_numbers() {
    let mut a = Rng::with_seed(16, 4, 2);
    let mut b = Rng::with_seed(16, 4, 2);
    for _ in 0..100 {
        assert_eq!(a.next_bits(), b.next_bits());
    }
}

#[test]
fn tiles_and_frames_have_streams_of_their_own() {
    let first = |x: u32, y: u32, frame: u32| Rng::with_seed(x, y, frame).next_bits();
    let seeds = [(0, 0, 0), (16, 0, 0), (0, 4, 0), (0, 0, 1), (16, 4, 0), (4, 16, 0), (1, 0, 0), (0, 1, 0)];
    for (i, a) in seeds.iter().enumerate() {
        for b in seeds[i + 1..].iter() {
            assert_ne!(first(a.0, a.1, a.2), first(b.0, b.1, b.2));
        }
    }
    // The lanes differ too.
    let bits = lanes(first(0, 0, 0));
    for i in 0..8 {
        for j in i + 1..8 {
            assert_ne!(bits[i], bits[j]);
        }
    }
}

#[test]
fn the_numbers_of_a_seed() {
    let mut rng = Rng::with_seed(0, 0, 0);
    assert_eq!(
        rng.next_bits(),
        Mi32(0x510c4619, 0x3ef397d4, 0xe9a996ae, 0x6a589ac7, 0xd86816b8, 0xefe4a9ab, 0xd591bc80, 0x0695fdac)
    );
    assert_eq!(
        rng.next_bits(),
        Mi32(0xe02e553e, 0xcd2f0bd0, 0xb4fb5910, 0x59088ea7, 0x8d500707, 0x20ef6ca3, 0xa2387d80, 0x9d2406bc)
    );
    let mut rng = Rng::with_seed(16, 4, 2);
    assert_eq!(
        rng.next_bits(),
        Mi32(0xfb1933d8, 0x770925ff, 0x38976420, 0xe8ce4135, 0xdaf2b450, 0x237fa75b, 0x255a029c, 0x3116bb52)
    );
}

#[test]
fn no_lane_is_ever_zero() {
    let mut rng = Rng::with_seed(0, 0, 0);
    let mut ones = [0_u64; 8];
    let n = 20000;
    for _ in 0..n {
        let bits = lanes(rng.next_bits());
        for k in 0..8 {
            assert_ne!(bits[k], 0);
            ones[k] += bits[k].count_ones() as u64;
        }
    }
    // About half of the bits are set.
    for k in 0..8 {
        let share = ones[k] as f64 / (32.0 * n as f64);
        assert!((share - 0.5).abs() < 0.01, "lane {}: {}", k, share);
    }
}
