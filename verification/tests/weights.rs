use wavelet_index::image::NUM_BYTES;
use wavelet_index::weights::{
    bin, weight, BINS, CHANNELS, NUM_COEFFS, NUM_PIXELS, NUM_PIXELS2, RESULTS,
};

#[test]
fn bin_is_the_larger_coordinate_capped() {
    assert_eq!(bin(0, 0), 0);
    assert_eq!(bin(1, 3), 3);
    assert_eq!(bin(4, 2), 4);
    assert_eq!(bin(5, 5), 5);
    assert_eq!(bin(127, 0), 5);
    assert_eq!(bin(0, 127), 5);
}

#[test]
fn weight_tables() {
    let table: [[f32; 6]; 3] = [
        [5.04, 0.83, 1.01, 0.52, 0.47, 0.30],
        [19.21, 1.26, 0.44, 0.53, 0.28, 0.14],
        [34.37, 0.36, 0.45, 0.14, 0.18, 0.27],
    ];
    for c in 0..3 {
        for b in 0..6 {
            assert_eq!(weight(c, b), table[c][b].to_bits(), "{} {}", c, b);
        }
    }
}

#[test]
fn weights_are_largest_at_the_first_bin() {
    for c in 0..3 {
        for b in 1..6 {
            assert!(f32::from_bits(weight(c, 0)) > f32::from_bits(weight(c, b)));
        }
    }
}

#[test]
fn weights_fall_with_the_bin_but_for_six_pairs() {
    let rises = [(0, 1, 2), (1, 2, 3), (2, 1, 2), (2, 3, 4), (2, 3, 5), (2, 4, 5)];
    for c in 0..3 {
        for b1 in 0..6 {
            for b2 in b1..6 {
                let falls = f32::from_bits(weight(c, b1)) >= f32::from_bits(weight(c, b2));
                assert_eq!(falls, !rises.contains(&(c, b1, b2)));
            }
        }
    }
}

#[test]
fn grid_constants_agree() {
    assert_eq!(NUM_PIXELS, 128);
    assert_eq!(NUM_PIXELS2, NUM_PIXELS * NUM_PIXELS);
    assert_eq!(NUM_BYTES, CHANNELS * NUM_PIXELS2);
    assert_eq!((NUM_COEFFS, RESULTS, CHANNELS, BINS), (40, 5, 3, 6));
}
