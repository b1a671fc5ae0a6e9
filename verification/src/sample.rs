//! Samples, as IEEE 754 binary32 bit patterns.
//!
//! A sample is carried as the `u32` that encodes it: the top bit is the sign
//! and the low 31 bits, read as an integer, grow with the absolute value.

use vstd::prelude::*;

verus! {

/// The bit pattern whose low 31 bits are all clear: the sign bit alone.
pub const SIGN_BIT: u32 = 0x8000_0000;

/// The magnitude of positive infinity; a larger magnitude encodes no number.
pub const INFINITY: u32 = 0x7F80_0000;

/// The magnitude of one thousandth, below which and at which a coefficient
/// counts as negligible in a query.
pub const NEGLIGIBLE: u32 = 0x3A83_126F;

/// One retained wavelet coefficient: its sample and its flattened grid
/// position.
#[derive(Clone, Copy, Debug, PartialEq, Eq, Structural)]
pub struct Coefficient {
    /// Bit pattern of the coefficient's value.
    pub bits: u32,
    /// Position in the flattened grid.
    pub position: u32,
}

/// The low 31 bits of a sample, which order samples by absolute value.
pub open spec fn magnitude_of(bits: u32) -> int {
    if bits >= SIGN_BIT { bits - SIGN_BIT } else { bits as int }
}

/// The sample is a number greater than zero.
pub open spec fn is_positive_sample(bits: u32) -> bool {
    0 < bits <= INFINITY
}

/// The sample is a number whose absolute value exceeds one thousandth.
pub open spec fn is_significant_sample(bits: u32) -> bool {
    NEGLIGIBLE < magnitude_of(bits) <= INFINITY
}

/// Computes the magnitude of a sample.
pub fn magnitude(bits: u32) -> (m: u32)
    ensures
        m == magnitude_of(bits),
        m < SIGN_BIT,
{
    if bits >= SIGN_BIT { bits - SIGN_BIT } else { bits }
}

/// Tells whether the sample is a number greater than zero.
pub fn is_positive(bits: u32) -> (r: bool)
    ensures
        r == is_positive_sample(bits),
{
    0 < bits && bits <= INFINITY
}

/// Tells whether the sample is a number whose absolute value exceeds one
/// thousandth.
pub fn is_significant(bits: u32) -> (r: bool)
    ensures
        r == is_significant_sample(bits),
{
    let m = magnitude(bits);
    NEGLIGIBLE < m && m <= INFINITY
}

} // verus!
