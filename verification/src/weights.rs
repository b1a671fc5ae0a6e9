//! Grid geometry, frequency bins and the weight tables of the score.

use vstd::prelude::*;

verus! {

/// Side of the square pixel grid.
pub const NUM_PIXELS: usize = 128;

/// Number of positions of one channel plane.
pub const NUM_PIXELS2: usize = 16384;

/// Number of coefficients that a signature keeps for each channel.
pub const NUM_COEFFS: usize = 40;

/// Number of entries that a query returns at most.
pub const RESULTS: usize = 5;

/// Number of colour channels.
pub const CHANNELS: usize = 3;

/// Number of frequency bins.
pub const BINS: usize = 6;

/// The frequency bin of the grid cell in row `i` and column `j`: the larger
/// of the two, capped at the last bin.
pub open spec fn bin_of(i: int, j: int) -> int {
    let m = if i >= j { i } else { j };
    if m >= 5 { 5 } else { m }
}

/// The frequency bin of the flattened grid position `p`.
pub open spec fn bin_at(p: int) -> int {
    bin_of(p / 128, p % 128)
}

/// The weight of a match in channel `c` at bin `b`, and for bin 0 of a unit
/// of difference between two averages. By channel, the samples
///
/// - 5.04, 0.83, 1.01, 0.52, 0.47, 0.30
/// - 19.21, 1.26, 0.44, 0.53, 0.28, 0.14
/// - 34.37, 0.36, 0.45, 0.14, 0.18, 0.27
pub open spec fn weight_of(c: int, b: int) -> u32 {
    if c == 0 {
        if b == 0 { 0x40A1_47AE } else if b == 1 { 0x3F54_7AE1 } else if b == 2 { 0x3F81_47AE }
        else if b == 3 { 0x3F05_1EB8 } else if b == 4 { 0x3EF0_A3D7 } else { 0x3E99_999A }
    } else if c == 1 {
        if b == 0 { 0x4199_AE14 } else if b == 1 { 0x3FA1_47AE } else if b == 2 { 0x3EE1_47AE }
        else if b == 3 { 0x3F07_AE14 } else if b == 4 { 0x3E8F_5C29 } else { 0x3E0F_5C29 }
    } else {
        if b == 0 { 0x4209_7AE1 } else if b == 1 { 0x3EB8_51EC } else if b == 2 { 0x3EE6_6666 }
        else if b == 3 { 0x3E0F_5C29 } else if b == 4 { 0x3E38_51EC } else { 0x3E8A_3D71 }
    }
}

/// Computes the frequency bin of the cell in row `i` and column `j`.
pub fn bin(i: usize, j: usize) -> (b: usize)
    ensures
        b == bin_of(i as int, j as int),
        b < BINS,
{
    let m: usize = if i >= j { i } else { j };
    if m >= 5 { 5 } else { m }
}

/// Computes the weight of channel `c` at bin `b`.
pub fn weight(c: usize, b: usize) -> (w: u32)
    requires
        c < CHANNELS,
        b < BINS,
    ensures
        w == weight_of(c as int, b as int),
{
    if c == 0 {
        if b == 0 { 0x40A1_47AE } else if b == 1 { 0x3F54_7AE1 } else if b == 2 { 0x3F81_47AE }
        else if b == 3 { 0x3F05_1EB8 } else if b == 4 { 0x3EF0_A3D7 } else { 0x3E99_999A }
    } else if c == 1 {
        if b == 0 { 0x4199_AE14 } else if b == 1 { 0x3FA1_47AE } else if b == 2 { 0x3EE1_47AE }
        else if b == 3 { 0x3F07_AE14 } else if b == 4 { 0x3E8F_5C29 } else { 0x3E0F_5C29 }
    } else {
        if b == 0 { 0x4209_7AE1 } else if b == 1 { 0x3EB8_51EC } else if b == 2 { 0x3EE6_6666 }
        else if b == 3 { 0x3E0F_5C29 } else if b == 4 { 0x3E38_51EC } else { 0x3E8A_3D71 }
    }
}

/// Every weight is a finite sample greater than zero.
pub proof fn weights_are_positive(c: int, b: int)
    ensures
        0 < weight_of(c, b) < 0x7F80_0000,
{
}

} // verus!
