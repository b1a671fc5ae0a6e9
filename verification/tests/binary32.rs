use wavelet_index::binary32::{from_u8, minus, neg, plus, times, NAN, ONE};

fn next(state: &mut u64) -> u32 {
    *state ^= *state << 13;
    *state ^= *state >> 7;
    *state ^= *state << 17;
    (*state >> 16) as u32
}

fn same(got: u32, expected: f32) -> bool {
    if expected.is_nan() {
        got == NAN
    } else {
        got == expected.to_bits()
    }
}

fn edge_cases() -> Vec<u32> {
    let mut all: Vec<u32> = vec![
        0x0000_0000, // zero
        0x0000_0001, // least subnormal
        0x0000_0002,
        0x0000_0003,
        0x0040_0000,
        0x007F_FFFF, // greatest subnormal
        0x0080_0000, // least normal
        0x0080_0001,
        0x00FF_FFFF,
        0x0100_0000,
        0x3380_0000, // 2^-24
        0x3400_0000, // 2^-23
        0x3F00_0000, // 0.5
        0x3F7F_FFFF,
        0x3F80_0000, // 1
        0x3F80_0001,
        0x3FC0_0000, // 1.5
        0x4000_0000, // 2
        0x4040_0000, // 3
        0x4B00_0000, // 2^23
        0x4B7F_FFFF,
        0x4B80_0000, // 2^24
        0x4B80_0001,
        0x5F00_0000,
        0x7F00_0000,
        0x7F7F_FFFE,
        0x7F7F_FFFF, // greatest finite
        0x7F80_0000, // infinity
        0x7F80_0001, // not a number
        0x7FC0_0000,
        0x7FFF_FFFF,
        0x3E99_1687,
        0x3F35_0481,
        0x1F80_0000,
        0x2000_0000,
        0x2000_0001,
    ];
    let negated: Vec<u32> = all.iter().map(|b| b | 0x8000_0000).collect();
    all.extend(negated);
    all
}

#[test]
fn one_and_nan_are_the_patterns_they_name() {
    assert_eq!(ONE, 1.0f32.to_bits());
    assert!(f32::from_bits(NAN).is_nan());
}

#[test]
fn from_u8_is_the_whole_number() {
    for r in 0..=255u8 {
        assert_eq!(from_u8(r), (r as f32).to_bits(), "{}", r);
    }
}

#[test]
fn neg_flips_the_sign() {
    for a in edge_cases() {
        assert_eq!(neg(a), (-f32::from_bits(a)).to_bits(), "{:#x}", a);
    }
}

#[test]
fn plus_agrees_with_the_machine_on_edge_cases() {
    for a in edge_cases() {
        for b in edge_cases() {
            let expected = f32::from_bits(a) + f32::from_bits(b);
            let got = plus(a, b);
            assert!(same(got, expected), "{:#x} + {:#x}: {:#x} {:#x}", a, b, got, expected.to_bits());
        }
    }
}

#[test]
fn minus_agrees_with_the_machine_on_edge_cases() {
    for a in edge_cases() {
        for b in edge_cases() {
            let expected = f32::from_bits(a) - f32::from_bits(b);
            let got = minus(a, b);
            assert!(same(got, expected), "{:#x} - {:#x}: {:#x} {:#x}", a, b, got, expected.to_bits());
        }
    }
}

#[test]
fn times_agrees_with_the_machine_on_edge_cases() {
    for a in edge_cases() {
        for b in edge_cases() {
            let expected = f32::from_bits(a) * f32::from_bits(b);
            let got = times(a, b);
            assert!(same(got, expected), "{:#x} * {:#x}: {:#x} {:#x}", a, b, got, expected.to_bits());
        }
    }
}

#[test]
fn plus_agrees_with_the_machine_on_arbitrary_patterns() {
    let mut state: u64 = 0x1234_5678_9ABC_DEF1;
    for _ in 0..200_000 {
        let a = next(&mut state);
        let b = next(&mut state);
        let expected = f32::from_bits(a) + f32::from_bits(b);
        let got = plus(a, b);
        assert!(same(got, expected), "{:#x} + {:#x}: {:#x} {:#x}", a, b, got, expected.to_bits());
    }
}

#[test]
fn plus_agrees_with_the_machine_on_close_exponents() {
    // Operands whose exponents differ by little, where digits cancel or
    // carry and the rounding matters.
    let mut state: u64 = 0x0F0F_1234_5678_9ABC;
    for _ in 0..200_000 {
        let a = next(&mut state);
        let shift = next(&mut state) % 60;
        let exponent = ((a >> 23) & 0xFF) as i64 + shift as i64 - 30;
        let exponent = exponent.clamp(0, 254) as u32;
        let b = (next(&mut state) & 0x807F_FFFF) | (exponent << 23);
        let expected = f32::from_bits(a) + f32::from_bits(b);
        let got = plus(a, b);
        assert!(same(got, expected), "{:#x} + {:#x}: {:#x} {:#x}", a, b, got, expected.to_bits());
        let expected = f32::from_bits(a) - f32::from_bits(b);
        let got = minus(a, b);
        assert!(same(got, expected), "{:#x} - {:#x}: {:#x} {:#x}", a, b, got, expected.to_bits());
    }
}

#[test]
fn times_agrees_with_the_machine_on_arbitrary_patterns() {
    let mut state: u64 = 0xFEDC_BA98_7654_3211;
    for _ in 0..200_000 {
        let a = next(&mut state);
        let b = next(&mut state);
        let expected = f32::from_bits(a) * f32::from_bits(b);
        let got = times(a, b);
        assert!(same(got, expected), "{:#x} * {:#x}: {:#x} {:#x}", a, b, got, expected.to_bits());
    }
}

#[test]
fn times_agrees_with_the_machine_near_the_limits() {
    // Products that land among the subnormals or near the greatest finite
    // sample.
    let mut state: u64 = 0x0BAD_F00D_DEAD_BEEF;
    for round in 0..200_000u32 {
        let a = next(&mut state);
        let ea = ((a >> 23) & 0xFF) as i64;
        let target = if round % 2 == 0 { 127 - 140 } else { 127 + 127 };
        let eb = (target - (ea - 127) + (next(&mut state) % 30) as i64 - 15).clamp(0, 254) as u32;
        let b = (next(&mut state) & 0x807F_FFFF) | (eb << 23);
        let expected = f32::from_bits(a) * f32::from_bits(b);
        let got = times(a, b);
        assert!(same(got, expected), "{:#x} * {:#x}: {:#x} {:#x}", a, b, got, expected.to_bits());
    }
}

#[test]
fn ties_round_to_even() {
    // 2^24 + 1 is halfway between 2^24 and 2^24 + 2.
    let big = 16777216.0f32.to_bits();
    assert_eq!(plus(big, ONE), big);
    // 2^24 + 3 is halfway between 2^24 + 2 and 2^24 + 4.
    let odd = 16777218.0f32.to_bits();
    assert_eq!(plus(odd, ONE), 16777220.0f32.to_bits());
    // 3 * (1 + 2^-23) lies just above a sample and rounds down.
    assert_eq!(times(0x4040_0000, 0x3F80_0001), (3.0f32 * f32::from_bits(0x3F80_0001)).to_bits());
}

#[test]
fn zeros_keep_their_sign_rules() {
    let zero = 0.0f32.to_bits();
    let negative = (-0.0f32).to_bits();
    assert_eq!(plus(zero, negative), zero);
    assert_eq!(plus(negative, negative), negative);
    assert_eq!(plus(ONE, neg(ONE)), zero);
    assert_eq!(minus(ONE, ONE), zero);
    assert_eq!(times(negative, ONE), negative);
    assert_eq!(times(negative, neg(ONE)), zero);
}

#[test]
fn adding_zero_keeps_a_sample() {
    let mut state: u64 = 0x5555_AAAA_1234_4321;
    for _ in 0..10_000 {
        let a = next(&mut state);
        if f32::from_bits(a).is_nan() || a & 0x7FFF_FFFF == 0 {
            continue;
        }
        assert_eq!(plus(a, 0), a);
        assert_eq!(plus(0, a), a);
        assert_eq!(minus(a, 0), a);
    }
}

#[test]
fn results_that_are_no_number_are_one_pattern() {
    let infinity = f32::INFINITY.to_bits();
    assert_eq!(plus(infinity, neg(infinity)), NAN);
    assert_eq!(minus(infinity, infinity), NAN);
    assert_eq!(times(infinity, 0), NAN);
    assert_eq!(times(0x8000_0000, infinity), NAN);
    assert_eq!(plus(0x7F80_0001, ONE), NAN);
    assert_eq!(times(ONE, 0xFFFF_FFFF), NAN);
    assert_eq!(plus(infinity, infinity), infinity);
    assert_eq!(times(neg(infinity), infinity), neg(infinity));
    assert_eq!(times(f32::MAX.to_bits(), f32::MAX.to_bits()), infinity);
    assert_eq!(plus(f32::MAX.to_bits(), f32::MAX.to_bits()), infinity);
}
