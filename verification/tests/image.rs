use wavelet_index::image::{extract, process_channel, Image};
use wavelet_index::signature::SignatureError;
use wavelet_index::wavelet::{haar1d, haar2d};

const N: usize = 128;

fn noise(seed: u32) -> Vec<u8> {
    let mut state = seed;
    let mut rgb = Vec::with_capacity(3 * N * N);
    for _ in 0..3 * N * N {
        state = state.wrapping_mul(1664525).wrapping_add(1013904223);
        rgb.push((state >> 24) as u8);
    }
    rgb
}

fn gradient() -> Vec<u8> {
    let mut rgb = Vec::with_capacity(3 * N * N);
    for row in 0..N {
        for col in 0..N {
            rgb.push((2 * col) as u8);
            rgb.push((2 * row) as u8);
            rgb.push((row + col) as u8);
        }
    }
    rgb
}

fn flat(r: u8, g: u8, b: u8) -> Vec<u8> {
    let mut rgb = Vec::with_capacity(3 * N * N);
    for _ in 0..N * N {
        rgb.extend([r, g, b]);
    }
    rgb
}

/// The colour planes in machine arithmetic.
fn planes(rgb: &[u8]) -> [Vec<f32>; 3] {
    let mut y = Vec::new();
    let mut i = Vec::new();
    let mut q = Vec::new();
    for pixel in rgb.chunks(3) {
        let r = pixel[0] as f32;
        let g = pixel[1] as f32;
        let b = pixel[2] as f32;
        y.push(0.299 * r + 0.587 * g + 0.114 * b);
        i.push(0.596 * r - 0.275 * g - 0.321 * b);
        q.push(0.212 * r - 0.523 * g + 0.311 * b);
    }
    [y, i, q]
}

/// The decomposition of a line of samples `stride` apart, in machine
/// arithmetic, in place.
fn decompose(data: &mut [f32], first: usize, stride: usize) {
    let mut spare = [0.0f32; N / 2];
    let mut c = 1.0f32;
    let mut h = N;
    while h > 1 {
        let half = h / 2;
        c *= 0.7071;
        for k in 0..half {
            let a = data[first + 2 * k * stride];
            let b = data[first + (2 * k + 1) * stride];
            spare[k] = (a - b) * c;
            data[first + k * stride] = a + b;
        }
        for k in 0..half {
            data[first + (half + k) * stride] = spare[k];
        }
        h = half;
    }
    data[first] *= c;
}

fn decompose_plane(data: &mut [f32]) {
    for row in 0..N {
        decompose(data, row * N, 1);
    }
    for col in 0..N {
        decompose(data, col, N);
    }
}

fn bits(plane: &[f32]) -> Vec<u32> {
    plane.iter().map(|x| x.to_bits()).collect()
}

#[test]
fn from_pixels_rejects_a_buffer_of_the_wrong_size() {
    assert_eq!(Image::from_pixels(&Vec::new()).err(), Some(SignatureError::Dimension));
    assert_eq!(Image::from_pixels(&vec![0u8; 49151]).err(), Some(SignatureError::Dimension));
    assert_eq!(Image::from_pixels(&vec![0u8; 49153]).err(), Some(SignatureError::Dimension));
    assert_eq!(Image::from_pixels(&vec![0u8; 16384]).err(), Some(SignatureError::Dimension));
    assert!(Image::from_pixels(&vec![0u8; 49152]).is_ok());
    assert_eq!(extract(&vec![0u8; 49151]).err(), Some(SignatureError::Dimension));
    assert!(extract(&vec![0u8; 49152]).is_ok());
}

#[test]
fn from_pixels_applies_the_colour_formulas() {
    let image = Image::from_pixels(&flat(255, 0, 0)).ok().unwrap();
    assert_eq!(image.y[0], (0.299f32 * 255.0).to_bits());
    assert_eq!(image.i[0], (0.596f32 * 255.0).to_bits());
    assert_eq!(image.q[0], (0.212f32 * 255.0).to_bits());
    let image = Image::from_pixels(&flat(10, 20, 30)).ok().unwrap();
    assert_eq!(image.y[777], (0.299f32 * 10.0 + 0.587f32 * 20.0 + 0.114f32 * 30.0).to_bits());
    assert_eq!(image.i[777], (0.596f32 * 10.0 - 0.275f32 * 20.0 - 0.321f32 * 30.0).to_bits());
    assert_eq!(image.q[777], (0.212f32 * 10.0 - 0.523f32 * 20.0 + 0.311f32 * 30.0).to_bits());
}

#[test]
fn from_pixels_agrees_with_machine_arithmetic() {
    for rgb in [noise(1), noise(77), gradient(), flat(0, 0, 0), flat(255, 255, 255), flat(90, 90, 90)] {
        let image = Image::from_pixels(&rgb).ok().unwrap();
        let [y, i, q] = planes(&rgb);
        assert_eq!(image.y, bits(&y));
        assert_eq!(image.i, bits(&i));
        assert_eq!(image.q, bits(&q));
    }
}

#[test]
fn new_image_has_no_pixel() {
    let image = Image::new();
    assert!(image.y.is_empty() && image.i.is_empty() && image.q.is_empty());
    assert_eq!(image.get_sig().err(), Some(SignatureError::Dimension));
}

#[test]
fn haar1d_of_a_constant_line_is_its_scaled_sum() {
    let mut line = vec![1.0f32.to_bits(); N];
    haar1d(&mut line);
    let mut c = 1.0f32;
    for _ in 0..7 {
        c *= 0.7071;
    }
    assert_eq!(line[0], (128.0f32 * c).to_bits());
    assert!(line[1..].iter().all(|&x| x == 0));
}

#[test]
fn haar1d_agrees_with_machine_arithmetic() {
    let [y, i, q] = planes(&noise(5));
    for plane in [y, i, q] {
        for row in [0usize, 1, 64, 127] {
            let mut expected = plane.clone();
            decompose(&mut expected, row * N, 1);
            let mut line = bits(&plane[row * N..(row + 1) * N]);
            haar1d(&mut line);
            assert_eq!(line, bits(&expected[row * N..(row + 1) * N]));
        }
    }
}

#[test]
fn haar2d_agrees_with_machine_arithmetic() {
    for rgb in [noise(3), gradient(), flat(200, 100, 50)] {
        for plane in planes(&rgb) {
            let mut expected = plane.clone();
            decompose_plane(&mut expected);
            let mut data = bits(&plane);
            haar2d(&mut data);
            assert_eq!(data, bits(&expected));
        }
    }
}

#[test]
fn process_channel_decomposes_and_summarises() {
    let [y, _, _] = planes(&noise(9));
    let mut expected = y.clone();
    decompose_plane(&mut expected);
    let mut data = bits(&y);
    let channel = process_channel(&mut data).unwrap();
    assert_eq!(data, bits(&expected));
    assert_eq!(channel.average, (expected[0] / 256.0 * 128.0).to_bits());
    assert_eq!(channel.coefficients.len(), 40);
    let mut order: Vec<usize> = (1..N * N).collect();
    order.sort_by(|&a, &b| expected[b].abs().partial_cmp(&expected[a].abs()).unwrap());
    for (k, v) in channel.coefficients.iter().enumerate() {
        assert_eq!(v.bits, expected[v.position as usize].to_bits());
        assert_eq!(expected[v.position as usize].abs(), expected[order[k]].abs());
    }
}

#[test]
fn process_channel_leaves_a_plane_of_the_wrong_size_alone() {
    let mut data = vec![1.0f32.to_bits(); 100];
    assert_eq!(process_channel(&mut data).err(), Some(SignatureError::Dimension));
    assert_eq!(data, vec![1.0f32.to_bits(); 100]);
}

#[test]
fn get_sig_summarises_the_three_planes() {
    let rgb = noise(11);
    let sig = extract(&rgb).ok().unwrap();
    let image = Image::from_pixels(&rgb).ok().unwrap();
    let direct = image.get_sig().ok().unwrap();
    for (c, plane) in planes(&rgb).iter().enumerate() {
        let mut data = bits(plane);
        let channel = process_channel(&mut data).unwrap();
        assert_eq!(sig.average(c), Some(channel.average));
        assert_eq!(sig.coefficients(c), Some(&channel.coefficients));
        assert_eq!(direct.average(c), Some(channel.average));
        assert_eq!(direct.coefficients(c), Some(&channel.coefficients));
    }
}

#[test]
fn get_sig_is_the_same_for_the_same_pixels() {
    let first = extract(&noise(21)).ok().unwrap();
    let _between = extract(&gradient()).ok().unwrap();
    let second = extract(&noise(21)).ok().unwrap();
    for c in 0..3 {
        assert_eq!(first.average(c), second.average(c));
        assert_eq!(first.coefficients(c), second.coefficients(c));
    }
}

#[test]
fn every_channel_has_forty_coefficients_away_from_the_origin() {
    for rgb in [noise(2), gradient(), flat(0, 0, 0), flat(255, 0, 0), flat(13, 200, 77)] {
        let sig = extract(&rgb).ok().unwrap();
        for c in 0..3 {
            let list = sig.coefficients(c).unwrap();
            assert_eq!(list.len(), 40);
            assert!(list.iter().all(|v| 1 <= v.position && v.position < 16384));
            let mut positions: Vec<u32> = list.iter().map(|v| v.position).collect();
            positions.sort();
            positions.dedup();
            assert_eq!(positions.len(), 40);
        }
    }
}

#[test]
fn average_of_a_flat_image_follows_its_colour() {
    // The decomposition of a flat plane leaves its sum, scaled fourteen
    // times, at the origin; the average is half of that.
    let sig = extract(&flat(255, 255, 255)).ok().unwrap();
    let mut c = 1.0f32;
    for _ in 0..7 {
        c *= 0.7071;
    }
    let white = 0.299f32 * 255.0 + 0.587f32 * 255.0 + 0.114f32 * 255.0;
    let mut row = white;
    for _ in 0..7 {
        row = row + row;
    }
    row *= c;
    let mut all = row;
    for _ in 0..7 {
        all = all + all;
    }
    all *= c;
    assert_eq!(sig.average(0), Some((all / 256.0 * 128.0).to_bits()));
    let average = f32::from_bits(sig.average(0).unwrap());
    assert!((average - 64.0 * 255.0).abs() < 16.0, "{}", average);
}

#[test]
fn samples_of_a_picture_are_finite() {
    for rgb in [noise(8), gradient(), flat(255, 255, 255), flat(255, 0, 0), flat(0, 0, 255)] {
        let image = Image::from_pixels(&rgb).ok().unwrap();
        for plane in [&image.y, &image.i, &image.q] {
            assert!(plane.iter().all(|&x| f32::from_bits(x).abs() <= 1024.0));
            let mut data = plane.clone();
            haar2d(&mut data);
            assert!(data.iter().all(|&x| f32::from_bits(x).abs() <= 16777216.0));
        }
        let sig = extract(&rgb).ok().unwrap();
        for c in 0..3 {
            assert!(f32::from_bits(sig.average(c).unwrap()).is_finite());
            assert!(sig.coefficients(c).unwrap().iter().all(|v| f32::from_bits(v.bits).is_finite()));
        }
    }
}

#[test]
fn the_negative_of_a_plane_decomposes_to_the_negative() {
    for rgb in [noise(31), gradient(), flat(10, 200, 90)] {
        for plane in planes(&rgb) {
            let mut data = bits(&plane);
            let negated: Vec<f32> = plane.iter().map(|x| -x).collect();
            let mut other = bits(&negated);
            haar2d(&mut data);
            haar2d(&mut other);
            for (a, b) in data.iter().zip(other.iter()) {
                // Equal as numbers: a zero may keep its sign.
                assert_eq!(-f32::from_bits(*a), f32::from_bits(*b));
            }
        }
    }
    // Where samples cancel, the zero that comes of it is the same zero for
    // a line and for its negative.
    let mut line = vec![1.0f32.to_bits(); N];
    let mut other = vec![(-1.0f32).to_bits(); N];
    haar1d(&mut line);
    haar1d(&mut other);
    assert_eq!(line[1], 0.0f32.to_bits());
    assert_eq!(other[1], 0.0f32.to_bits());
    assert_eq!(other[0], line[0] | 0x8000_0000);
}
