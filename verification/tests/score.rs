use wavelet_index::order::key;
use wavelet_index::score::STEPS;

fn values() -> Vec<f32> {
    vec![
        f32::NEG_INFINITY,
        f32::MIN,
        -1.0e10,
        -32.03,
        -1.0,
        -0.001,
        -1.0e-45,
        0.0,
        1.0e-45,
        f32::MIN_POSITIVE,
        0.001,
        0.14,
        1.0,
        5.04,
        34.37,
        1.0e10,
        f32::MAX,
        f32::INFINITY,
    ]
}

#[test]
fn there_is_one_step_for_each_coefficient() {
    assert_eq!(STEPS, 40 * 3);
}

#[test]
fn key_orders_samples_by_value() {
    let all = values();
    for &x in &all {
        for &y in &all {
            assert_eq!(key(x.to_bits()) < key(y.to_bits()), x < y, "{} {}", x, y);
            assert_eq!(key(x.to_bits()) == key(y.to_bits()), x == y, "{} {}", x, y);
        }
    }
}

#[test]
fn key_gives_both_zeros_one_place() {
    assert_eq!(key(0.0f32.to_bits()), 0);
    assert_eq!(key((-0.0f32).to_bits()), 0);
}

#[test]
fn key_puts_what_is_no_number_beyond_the_infinities() {
    assert!(key(f32::NAN.to_bits()) > key(f32::INFINITY.to_bits()));
    assert!(key(f32::NAN.to_bits() | 0x8000_0000) < key(f32::NEG_INFINITY.to_bits()));
    assert_eq!(key(0xFFFF_FFFF), -0x7FFF_FFFF);
    assert_eq!(key(0x7FFF_FFFF), 0x7FFF_FFFF);
}

#[test]
fn key_agrees_with_the_machine_order_on_arbitrary_patterns() {
    let mut state: u64 = 0x1357_9BDF_0246_8ACE;
    for _ in 0..100_000 {
        state ^= state << 13;
        state ^= state >> 7;
        state ^= state << 17;
        let a = (state >> 32) as u32;
        let b = state as u32;
        let (x, y) = (f32::from_bits(a), f32::from_bits(b));
        if x.is_nan() || y.is_nan() {
            continue;
        }
        assert_eq!(key(a) < key(b), x < y, "{:#x} {:#x}", a, b);
    }
}
