use image_classifier::binary32::{Binary32, HALF_BITS, HUNDRED_BITS, INFINITY_BITS, ONE_BITS};

fn datum(x: f32) -> Binary32 {
    Binary32 { bits: x.to_bits() }
}

fn number(d: Binary32) -> f32 {
    f32::from_bits(d.bits)
}

/// The product as the machine computes it: exact in double precision for
/// factors below 2^29, then rounded once.
fn machine_product(bits: u32, k: u32) -> f32 {
    ((f32::from_bits(bits) as f64) * (k as f64)) as f32
}

fn next_random(state: &mut u64) -> u32 {
    *state = state.wrapping_mul(6364136223846793005).wrapping_add(1442695040888963407);
    (*state >> 32) as u32
}

#[test]
fn one_times_hundred_is_hundred() {
    assert_eq!(datum(1.0).times(100).bits, HUNDRED_BITS);
    assert_eq!(Binary32 { bits: ONE_BITS }.times(100).bits, 0x42C8_0000);
}

#[test]
fn half_times_hundred_is_fifty() {
    assert_eq!(number(datum(0.5).times(100)), 50.0);
}

#[test]
fn times_one_changes_nothing_finite() {
    for bits in [0u32, 1, 0x007F_FFFF, 0x0080_0000, 0x3F80_0000, 0x7F7F_FFFF, 0x8000_0000, 0xBF80_0000] {
        assert_eq!(Binary32 { bits }.times(1).bits, bits);
    }
}

#[test]
fn times_rounds_ties_to_even() {
    // 11184814 * 3 = 33554442 needs 26 bits and drops two; a quarter of it
    // is 8388610.5, halfway, and the even significand is 8388610.
    assert_eq!(number(datum(11184814.0).times(3)), 33554440.0);
    // 11184818 * 3 = 33554454; a quarter is 8388613.5, and the even
    // significand is 8388614.
    assert_eq!(number(datum(11184818.0).times(3)), 33554456.0);
    // 16777215 * 3 = 50331645; a quarter is 12582911.25, which rounds down.
    assert_eq!(number(datum(16777215.0).times(3)), 50331644.0);
    // A power of two as factor only moves the shift.
    assert_eq!(number(datum(12582913.0).times(2)), 25165826.0);
}

#[test]
fn times_overflows_to_infinity() {
    assert_eq!(Binary32 { bits: 0x7F7F_FFFF }.times(2).bits, INFINITY_BITS);
    assert_eq!(Binary32 { bits: 0xFF7F_FFFF }.times(2).bits, 0xFF80_0000);
    assert_eq!(datum(f32::MAX / 100.0).times(10000).bits, INFINITY_BITS);
}

#[test]
fn times_keeps_infinity_and_sign() {
    assert_eq!(Binary32 { bits: INFINITY_BITS }.times(100).bits, INFINITY_BITS);
    assert_eq!(Binary32 { bits: 0xFF80_0000 }.times(100).bits, 0xFF80_0000);
    assert_eq!(Binary32 { bits: 0x8000_0000 }.times(100).bits, 0x8000_0000);
    assert_eq!(Binary32 { bits: 0 }.times(100).bits, 0);
}

#[test]
fn times_quiets_a_nan() {
    assert_eq!(Binary32 { bits: 0x7F80_0001 }.times(100).bits, 0x7FC0_0001);
    assert_eq!(Binary32 { bits: 0x7FC0_0000 }.times(100).bits, 0x7FC0_0000);
    assert_eq!(Binary32 { bits: 0xFFA0_0000 }.times(7).bits, 0xFFE0_0000);
    assert!(number(Binary32 { bits: 0x7F80_0001 }.times(100)).is_nan());
}

#[test]
fn times_lifts_subnormals() {
    // The smallest subnormal times a hundred is a hundred of it.
    assert_eq!(Binary32 { bits: 1 }.times(100).bits, 100);
    // The largest subnormal doubled is normal.
    assert_eq!(
        number(Binary32 { bits: 0x007F_FFFF }.times(2)),
        f32::from_bits(0x007F_FFFF) * 2.0
    );
}

#[test]
fn times_agrees_with_the_machine_on_chosen_patterns() {
    let fractions = [
        0u32, 1, 2, 3, 0x0F_FFFF, 0x10_0000, 0x3F_FFFF, 0x40_0000, 0x40_0001, 0x51_B717,
        0x7F_FFFE, 0x7F_FFFF, 0x2A_AAAA, 0x55_5555, 0x48_0000,
    ];
    let factors = [1u32, 2, 3, 7, 10, 100, 1000, 10_000, 65_535, 65_536, (1 << 29) - 1];
    for field in 0u32..255 {
        for fraction in fractions {
            for sign in [0u32, 0x8000_0000] {
                let bits = sign | (field << 23) | fraction;
                for k in factors {
                    let got = Binary32 { bits }.times(k).bits;
                    let want = machine_product(bits, k).to_bits();
                    assert_eq!(got, want, "bits {:#x} times {}", bits, k);
                }
            }
        }
    }
}

#[test]
fn times_agrees_with_the_machine_on_random_patterns() {
    let mut state: u64 = 0x1234_5678_9ABC_DEF0;
    let mut finite = 0u32;
    for _ in 0..200_000 {
        let bits = next_random(&mut state);
        if (bits >> 23) & 0xFF == 0xFF {
            continue;
        }
        finite += 1;
        for k in [100u32, 10_000] {
            let got = Binary32 { bits }.times(k).bits;
            let want = (f32::from_bits(bits) * (k as f32)).to_bits();
            assert_eq!(got, want, "bits {:#x} times {}", bits, k);
        }
    }
    assert!(finite > 190_000);
}

#[test]
fn positive_rounding_agrees_with_round() {
    let mut state: u64 = 42;
    for _ in 0..200_000 {
        let bits = next_random(&mut state);
        let want = f32::from_bits(bits).round() > 0.0;
        assert_eq!(Binary32 { bits }.has_positive_rounding(), want, "bits {:#x}", bits);
    }
    for bits in [
        0u32,
        HALF_BITS - 1,
        HALF_BITS,
        HALF_BITS + 1,
        ONE_BITS,
        INFINITY_BITS,
        INFINITY_BITS + 1,
        0x7FC0_0000,
        0x8000_0000,
        0xBF00_0000,
        0xFF80_0000,
        0xFFFF_FFFF,
    ] {
        let want = f32::from_bits(bits).round() > 0.0;
        assert_eq!(Binary32 { bits }.has_positive_rounding(), want, "bits {:#x}", bits);
    }
}

#[test]
fn noise_floor_lies_at_one_pattern() {
    // The lowest score that passes: ten thousand times it rounds up to one
    // half in binary32, though the exact product is a little less.
    let lowest = Binary32 { bits: 0x3851_B717 };
    let below = Binary32 { bits: 0x3851_B716 };
    assert!(lowest.times(10_000).has_positive_rounding());
    assert!(!below.times(10_000).has_positive_rounding());
    assert!((f32::from_bits(0x3851_B717) * 10000.0).round() > 0.0);
    assert!(!((f32::from_bits(0x3851_B716) * 10000.0).round() > 0.0));
}

#[test]
fn noise_floor_agrees_with_the_machine_near_the_edge() {
    for bits in 0x3851_0000u32..0x3852_0000 {
        let want = (f32::from_bits(bits) * 10000.0).round() > 0.0;
        let got = Binary32 { bits }.times(10_000).has_positive_rounding();
        assert_eq!(got, want, "bits {:#x}", bits);
    }
}

#[test]
fn times_agrees_with_the_machine_on_the_largest_factors() {
    // Significands whose three lowest bits are clear leave the product
    // with at most 53 bits, which double precision holds exactly.
    let fractions = [0u32, 8, 0x10_0000, 0x40_0000, 0x48_0000, 0x55_5550, 0x7F_FFF8];
    let factors = [u32::MAX, u32::MAX - 1, 1 << 31, (1 << 31) + 1, 0xC000_0001];
    for field in 0u32..255 {
        for fraction in fractions {
            let bits = (field << 23) | fraction;
            for k in factors {
                let got = Binary32 { bits }.times(k).bits;
                let want = machine_product(bits, k).to_bits();
                assert_eq!(got, want, "bits {:#x} times {}", bits, k);
            }
        }
    }
}
