use wavelet_index::sample::Coefficient;
use wavelet_index::signature::{
    check_coefficients, summarise, Channel, Signature, SignatureError,
};

fn plane_with(values: &[(usize, f32)]) -> Vec<u32> {
    let mut plane = vec![0u32; 16384];
    for &(p, x) in values {
        plane[p] = x.to_bits();
    }
    plane
}

fn ramp() -> Vec<Coefficient> {
    (1..=40).map(|p| Coefficient { bits: 1.0f32.to_bits(), position: p }).collect()
}

fn channel(coefficients: Vec<Coefficient>) -> Channel {
    Channel { average: 0, coefficients }
}

#[test]
fn summarise_rejects_a_plane_of_the_wrong_size() {
    assert_eq!(summarise(&vec![0u32; 16383]).err(), Some(SignatureError::Dimension));
    assert_eq!(summarise(&vec![0u32; 16385]).err(), Some(SignatureError::Dimension));
    assert_eq!(summarise(&Vec::new()).err(), Some(SignatureError::Dimension));
    assert!(summarise(&vec![0u32; 16384]).is_ok());
}

#[test]
fn summarise_keeps_the_strongest_samples_strongest_first() {
    let mut values: Vec<(usize, f32)> = Vec::new();
    for i in 0..60usize {
        let p = 100 + 37 * i;
        let x = (i as f32 + 1.0) * if i % 2 == 0 { 1.0 } else { -1.0 };
        values.push((p, x));
    }
    let plane = plane_with(&values);
    let channel = summarise(&plane).unwrap();
    assert_eq!(channel.coefficients.len(), 40);
    for (k, v) in channel.coefficients.iter().enumerate() {
        let i = 59 - k;
        assert_eq!(v.position as usize, 100 + 37 * i);
        assert_eq!(v.bits, plane[v.position as usize]);
        assert_eq!(f32::from_bits(v.bits).abs(), i as f32 + 1.0);
    }
}

#[test]
fn summarise_never_keeps_the_origin() {
    let mut values: Vec<(usize, f32)> = vec![(0, 1.0e9)];
    for p in 1..=40usize {
        values.push((p * 5, 0.5));
    }
    let channel = summarise(&plane_with(&values)).unwrap();
    assert_eq!(channel.coefficients.len(), 40);
    assert!(channel.coefficients.iter().all(|v| v.position != 0));
    assert!(channel.coefficients.iter().all(|v| v.bits == 0.5f32.to_bits()));
    assert_eq!(channel.average, (1.0e9f32 / 256.0 * 128.0).to_bits());
}

#[test]
fn summarise_fills_up_with_the_lowest_positions_on_ties() {
    let plane = plane_with(&[(9000, -2.0), (300, 2.0), (7, 1.0)]);
    let channel = summarise(&plane).unwrap();
    let positions: Vec<u32> = channel.coefficients.iter().map(|v| v.position).collect();
    let mut expected: Vec<u32> = vec![300, 9000, 7];
    expected.extend((1..=38u32).filter(|&p| p != 7));
    assert_eq!(positions, expected);
    assert_eq!(channel.coefficients[1].bits, (-2.0f32).to_bits());
}

#[test]
fn summarise_takes_the_average_from_the_origin() {
    let channel = summarise(&plane_with(&[(0, 200.0)])).unwrap();
    assert_eq!(channel.average, 100.0f32.to_bits());
    let channel = summarise(&plane_with(&[(0, -0.5)])).unwrap();
    assert_eq!(channel.average, (-0.25f32).to_bits());
    let channel = summarise(&plane_with(&[(0, 1234.5678)])).unwrap();
    assert_eq!(channel.average, (1234.5678f32 / 256.0 * 128.0).to_bits());
    // Dividing a sample at the bottom of the range by 256 loses its digits.
    let channel = summarise(&plane_with(&[(0, 1.0e-44)])).unwrap();
    assert_eq!(channel.average, (1.0e-44f32 / 256.0 * 128.0).to_bits());
    assert_eq!(channel.average, 0);
}

#[test]
fn summarise_gives_the_same_result_each_time() {
    let mut values: Vec<(usize, f32)> = Vec::new();
    let mut state: u32 = 12345;
    for p in 0..16384usize {
        state = state.wrapping_mul(1664525).wrapping_add(1013904223);
        values.push((p, ((state >> 8) as f32 / 65536.0) - 128.0));
    }
    let plane = plane_with(&values);
    let first = summarise(&plane).unwrap();
    let second = summarise(&plane.clone()).unwrap();
    assert_eq!(first.average, second.average);
    assert_eq!(first.coefficients, second.coefficients);
    assert_eq!(first.coefficients.len(), 40);
    // Every sample left out is no stronger than the weakest one kept.
    let weakest = f32::from_bits(first.coefficients[39].bits).abs();
    let kept: Vec<u32> = first.coefficients.iter().map(|v| v.position).collect();
    for p in 1..16384u32 {
        if !kept.contains(&p) {
            assert!(f32::from_bits(plane[p as usize]).abs() <= weakest);
        }
    }
}

#[test]
fn check_coefficients_accepts_a_valid_list() {
    assert!(check_coefficients(&ramp()));
    let mut high = ramp();
    high[39].position = 16383;
    assert!(check_coefficients(&high));
}

#[test]
fn check_coefficients_rejects_a_wrong_count() {
    let mut short = ramp();
    short.pop();
    assert!(!check_coefficients(&short));
    let mut long = ramp();
    long.push(Coefficient { bits: 0, position: 41 });
    assert!(!check_coefficients(&long));
    assert!(!check_coefficients(&Vec::new()));
}

#[test]
fn check_coefficients_rejects_the_origin_and_positions_off_the_grid() {
    let mut origin = ramp();
    origin[3].position = 0;
    assert!(!check_coefficients(&origin));
    let mut off = ramp();
    off[39].position = 16384;
    assert!(!check_coefficients(&off));
}

#[test]
fn check_coefficients_rejects_a_repeated_position() {
    let mut twice = ramp();
    twice[39].position = 1;
    assert!(!check_coefficients(&twice));
    let mut adjacent = ramp();
    adjacent[1].position = 1;
    assert!(!check_coefficients(&adjacent));
}

#[test]
fn signature_new_keeps_the_channels() {
    let mut second = ramp();
    second[0].bits = (-3.0f32).to_bits();
    let sig = Signature::new(
        Channel { average: 5.0f32.to_bits(), coefficients: ramp() },
        Channel { average: (-6.5f32).to_bits(), coefficients: second.clone() },
        Channel { average: 7, coefficients: ramp() },
    )
    .ok()
    .unwrap();
    assert_eq!(sig.average(0), Some(5.0f32.to_bits()));
    assert_eq!(sig.average(1), Some((-6.5f32).to_bits()));
    assert_eq!(sig.average(2), Some(7));
    assert_eq!(sig.average(3), None);
    assert_eq!(sig.coefficients(0), Some(&ramp()));
    assert_eq!(sig.coefficients(1), Some(&second));
    assert_eq!(sig.coefficients(2), Some(&ramp()));
    assert_eq!(sig.coefficients(3), None);
}

#[test]
fn signature_new_rejects_an_invalid_channel() {
    let mut bad = ramp();
    bad[5].position = 0;
    assert_eq!(
        Signature::new(channel(bad.clone()), channel(ramp()), channel(ramp())).err(),
        Some(SignatureError::Coefficients)
    );
    assert_eq!(
        Signature::new(channel(ramp()), channel(bad.clone()), channel(ramp())).err(),
        Some(SignatureError::Coefficients)
    );
    assert_eq!(
        Signature::new(channel(ramp()), channel(ramp()), channel(bad)).err(),
        Some(SignatureError::Coefficients)
    );
}

#[test]
fn from_planes_rejects_a_plane_of_the_wrong_size() {
    let good = vec![0u32; 16384];
    let bad = vec![0u32; 100];
    assert_eq!(Signature::from_planes(&bad, &good, &good).err(), Some(SignatureError::Dimension));
    assert_eq!(Signature::from_planes(&good, &bad, &good).err(), Some(SignatureError::Dimension));
    assert_eq!(Signature::from_planes(&good, &good, &bad).err(), Some(SignatureError::Dimension));
}

#[test]
fn from_planes_summarises_each_plane() {
    let y = plane_with(&[(0, 64.0), (10, 3.0)]);
    let i = plane_with(&[(0, -2.0), (20, -4.0)]);
    let q = plane_with(&[(0, 0.0), (16383, 5.0)]);
    let sig = Signature::from_planes(&y, &i, &q).ok().unwrap();
    assert_eq!(sig.average(0), Some(32.0f32.to_bits()));
    assert_eq!(sig.average(1), Some((-1.0f32).to_bits()));
    assert_eq!(sig.average(2), Some(0));
    for (c, plane) in [&y, &i, &q].iter().enumerate() {
        let expected = summarise(plane).unwrap();
        assert_eq!(sig.coefficients(c), Some(&expected.coefficients));
        assert_eq!(sig.coefficients(c).unwrap().len(), 40);
    }
    assert_eq!(sig.coefficients(0).unwrap()[0], Coefficient { bits: 3.0f32.to_bits(), position: 10 });
    assert_eq!(sig.coefficients(1).unwrap()[0].position, 20);
    assert_eq!(sig.coefficients(2).unwrap()[0].position, 16383);
}
