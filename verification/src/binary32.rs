//! IEEE 754 binary32 arithmetic on bit patterns, in integers.
//!
//! A finite sample is a whole number of units of 2^-149. A sum or a product
//! is the exact result in such units, rounded to the nearest sample, ties to
//! the even one, and to infinity where it is too large. A result that is not
//! a number is always the pattern [`NAN`].
//!
//! That the rounding keeps a sample as it is, gives the nearest sample and
//! keeps the order of values is proved here and in [`crate::order`].

use crate::sample::{magnitude, magnitude_of, INFINITY, SIGN_BIT};
use vstd::arithmetic::div_mod::{lemma_fundamental_div_mod, lemma_fundamental_div_mod_converse};
use vstd::arithmetic::power2::{
    lemma2_to64, lemma2_to64_rest, lemma_pow2_adds, lemma_pow2_pos, lemma_pow2_strictly_increases,
    lemma_pow2_unfold, pow2,
};
use vstd::prelude::*;

verus! {

/// The pattern of every result that is not a number.
pub const NAN: u32 = 0x7FC0_0000;

/// The pattern of one.
pub const ONE: u32 = 0x3F80_0000;

/// Two to the power 23: the hidden bit of a significand, and the step of the
/// exponent field in a pattern.
pub const HIDDEN: u32 = 0x80_0000;

/// The sample is not a number.
pub open spec fn is_nan(bits: u32) -> bool {
    magnitude_of(bits) > INFINITY
}

/// The sample is an infinity.
pub open spec fn is_infinite(bits: u32) -> bool {
    magnitude_of(bits) == INFINITY
}

/// The sample has its sign bit set.
pub open spec fn is_negative(bits: u32) -> bool {
    bits >= SIGN_BIT
}

/// The significand of a finite sample, as a whole number.
pub open spec fn significand_of(bits: u32) -> int {
    let m = magnitude_of(bits);
    if m / 0x80_0000 == 0 {
        m % 0x80_0000
    } else {
        0x80_0000 + m % 0x80_0000
    }
}

/// The power of two by which the significand of a finite sample is scaled to
/// give its absolute value in units.
pub open spec fn scale_of(bits: u32) -> nat {
    let m = magnitude_of(bits);
    if m / 0x80_0000 == 0 {
        0
    } else {
        (m / 0x80_0000 - 1) as nat
    }
}

/// The absolute value of a finite sample, in units of 2^-149.
pub open spec fn units_of(bits: u32) -> int {
    significand_of(bits) * pow2(scale_of(bits))
}

/// The value of a finite sample, in units of 2^-149.
pub open spec fn signed_units_of(bits: u32) -> int {
    if is_negative(bits) {
        -units_of(bits)
    } else {
        units_of(bits)
    }
}

/// The whole number nearest to `n / d`, and of two equally near the even
/// one.
pub open spec fn round_half_even(n: int, d: int) -> int {
    let q = n / d;
    let r = n % d;
    if 2 * r > d || (2 * r == d && q % 2 == 1) {
        q + 1
    } else {
        q
    }
}

/// The number of binary digits of `n`.
pub open spec fn bit_length(n: int) -> nat
    decreases n,
{
    if n <= 0 {
        0
    } else {
        1 + bit_length(n / 2)
    }
}

/// The magnitude of the sample nearest to `n` units of 2^-(149 + `k`): `n`
/// is rounded to 24 binary digits, or to whole units of 2^-149 where it has
/// fewer above them, and a carry out of the significand moves into the
/// exponent field.
pub open spec fn round_magnitude(n: int, k: int) -> int {
    let shift = if bit_length(n) - 24 > k { bit_length(n) - 24 } else { k };
    let m = (shift - k) * 0x80_0000 + round_half_even(n, pow2(shift as nat) as int);
    if m >= INFINITY { INFINITY as int } else { m }
}

/// The sample that is the whole number `r`.
pub open spec fn of_u8(r: u8) -> u32 {
    round_magnitude(r * pow2(149), 0) as u32
}

/// The sample with the other sign.
pub open spec fn neg_of(a: u32) -> u32 {
    if a >= SIGN_BIT {
        (a - SIGN_BIT) as u32
    } else {
        (a + SIGN_BIT) as u32
    }
}

/// The sum of two samples.
pub open spec fn add_of(a: u32, b: u32) -> u32 {
    if is_nan(a) || is_nan(b) {
        NAN
    } else if is_infinite(a) {
        if is_infinite(b) && is_negative(a) != is_negative(b) {
            NAN
        } else {
            a
        }
    } else if is_infinite(b) {
        b
    } else {
        let s = signed_units_of(a) + signed_units_of(b);
        if s == 0 {
            if is_negative(a) && is_negative(b) {
                SIGN_BIT
            } else {
                0
            }
        } else if s < 0 {
            (SIGN_BIT + round_magnitude(-s, 0)) as u32
        } else {
            round_magnitude(s, 0) as u32
        }
    }
}

/// The difference of two samples.
pub open spec fn sub_of(a: u32, b: u32) -> u32 {
    add_of(a, neg_of(b))
}

/// The product of two samples.
pub open spec fn mul_of(a: u32, b: u32) -> u32 {
    if is_nan(a) || is_nan(b) {
        NAN
    } else if (is_infinite(a) && magnitude_of(b) == 0) || (is_infinite(b) && magnitude_of(a) == 0) {
        NAN
    } else {
        let m = if is_infinite(a) || is_infinite(b) {
            INFINITY as int
        } else {
            round_magnitude(units_of(a) * units_of(b), 149)
        };
        if is_negative(a) != is_negative(b) {
            (SIGN_BIT + m) as u32
        } else {
            m as u32
        }
    }
}

/// A larger exponent gives no smaller a power of two.
proof fn lemma_pow2_increases(a: nat, b: nat)
    requires
        a <= b,
    ensures
        pow2(a) <= pow2(b),
{
    if a < b {
        lemma_pow2_strictly_increases(a, b);
    }
}

/// A number between two neighbouring powers of two has as many binary digits
/// as the larger one's exponent.
pub(crate) proof fn lemma_bit_length(n: int, len: nat)
    requires
        len >= 1,
        pow2((len - 1) as nat) <= n < pow2(len),
    ensures
        bit_length(n) == len,
    decreases len,
{
    lemma_pow2_unfold(len);
    if len == 1 {
        lemma2_to64();
        assert(bit_length(1) == 1 + bit_length(0));
    } else {
        lemma_pow2_unfold((len - 1) as nat);
        lemma_bit_length(n / 2, (len - 1) as nat);
    }
}

/// Scaling by a power of two moves a number between two neighbouring powers
/// of two to between the two scaled ones.
pub(crate) proof fn lemma_scaled_bounds(p: int, len: nat, e: nat)
    requires
        len >= 1,
        pow2((len - 1) as nat) <= p < pow2(len),
    ensures
        pow2((len - 1 + e) as nat) <= p * pow2(e) < pow2(len + e),
{
    lemma_pow2_adds((len - 1) as nat, e);
    lemma_pow2_adds(len, e);
    lemma_pow2_pos(e);
    let t = pow2(e) as int;
    let lo = pow2((len - 1) as nat) as int;
    let hi = pow2(len) as int;
    assert(lo * t <= p * t < hi * t) by (nonlinear_arith)
        requires
            lo <= p < hi,
            t > 0,
    ;
}

/// Computes a power of two.
fn power_of_two(s: u32) -> (d: u64)
    requires
        s <= 62,
    ensures
        d == pow2(s as nat),
        0 < d <= 0x4000_0000_0000_0000,
{
    let mut d: u64 = 1;
    let mut i: u32 = 0;
    proof {
        lemma2_to64();
        lemma2_to64_rest();
    }
    while i < s
        invariant
            i <= s <= 62,
            d == pow2(i as nat),
            pow2(62) == 0x4000_0000_0000_0000,
        decreases s - i,
    {
        proof {
            lemma_pow2_unfold((i + 1) as nat);
            lemma_pow2_increases((i + 1) as nat, 62);
        }
        d = d * 2;
        i += 1;
    }
    proof {
        lemma_pow2_pos(s as nat);
        lemma_pow2_increases(s as nat, 62);
    }
    d
}

/// Counts the binary digits of a number.
fn count_bits(p: u64) -> (len: u32)
    requires
        0 < p < 0x4000_0000_0000_0000,
    ensures
        1 <= len <= 62,
        pow2((len - 1) as nat) <= p < pow2(len as nat),
{
    let mut len: u32 = 0;
    let mut t: u64 = 1;
    proof {
        lemma2_to64();
        lemma2_to64_rest();
    }
    while t <= p
        invariant
            0 < p < 0x4000_0000_0000_0000,
            len <= 62,
            t == pow2(len as nat),
            len > 0 ==> pow2((len - 1) as nat) <= p,
            pow2(62) == 0x4000_0000_0000_0000,
        decreases 62 - len,
    {
        proof {
            lemma_pow2_unfold((len + 1) as nat);
        }
        t = t * 2;
        len += 1;
    }
    len
}

/// Rounds `p` scaled by two to the power `e`, in units of 2^-(149 + `k`),
/// to the magnitude of the nearest sample.
fn round(p: u64, e: u32, k: u32) -> (m: u32)
    requires
        p < 0x4_0000_0000_0000,
        e <= 506,
        k <= 149,
    ensures
        m == round_magnitude(p * pow2(e as nat), k as int),
        m <= INFINITY,
{
    let ghost n: int = p * pow2(e as nat);
    if p == 0 {
        proof {
            lemma_pow2_pos(k as nat);
            let d = pow2(k as nat) as int;
            lemma_fundamental_div_mod_converse(0, d, 0, 0);
        }
        return 0;
    }
    let len = count_bits(p);
    proof {
        lemma2_to64();
        lemma_scaled_bounds(p as int, len as nat, e as nat);
        lemma_bit_length(n, (len + e) as nat);
    }
    let total = len + e;
    let shift: u32 = if total > 24 + k { total - 24 } else { k };
    let ghost d: int = pow2(shift as nat) as int;
    proof {
        lemma_pow2_pos(shift as nat);
    }
    let sig: u64;
    if shift <= e {
        let up = e - shift;
        let factor = power_of_two(up);
        proof {
            lemma_pow2_adds(up as nat, shift as nat);
            lemma_pow2_adds(len as nat, up as nat);
            let f = factor as int;
            let hi = pow2(len as nat) as int;
            assert(p * f < hi * f) by (nonlinear_arith)
                requires
                    p < hi,
                    f > 0,
            ;
            assert(n == (p * f) * d + 0) by (nonlinear_arith)
                requires
                    n == p * pow2(e as nat),
                    pow2(e as nat) == f * d,
            ;
            lemma_fundamental_div_mod_converse(n, d, p * f, 0);
        }
        sig = p * factor;
    } else {
        let down = shift - e;
        if down > len {
            proof {
                lemma_pow2_adds((down - 1) as nat, e as nat);
                lemma_pow2_unfold(shift as nat);
                lemma_pow2_increases(len as nat, (down - 1) as nat);
                lemma_pow2_pos(e as nat);
                let t = pow2(e as nat) as int;
                let half = pow2((down - 1) as nat) as int;
                assert(p * t < half * t) by (nonlinear_arith)
                    requires
                        p < half,
                        t > 0,
                ;
                lemma_fundamental_div_mod_converse(n, d, 0, n);
            }
            sig = 0;
        } else {
            let step = power_of_two(down);
            let q = p / step;
            let r = p % step;
            let twice = 2 * r;
            let up = twice > step || (twice == step && q % 2 == 1);
            proof {
                lemma_pow2_adds(down as nat, e as nat);
                lemma_pow2_pos(e as nat);
                let t = pow2(e as nat) as int;
                let s = step as int;
                lemma_fundamental_div_mod(p as int, s);
                assert(n == q * d + r * t && 0 <= r * t < d && (2 * (r * t) > d) == (2 * r > s)
                    && (2 * (r * t) == d) == (2 * r == s)) by (nonlinear_arith)
                    requires
                        n == p * t,
                        p == q * s + r,
                        d == s * t,
                        0 <= r < s,
                        t > 0,
                ;
                lemma_fundamental_div_mod_converse(n, d, q as int, r * t);
            }
            sig = if up { q + 1 } else { q };
        }
    }
    let m: u64 = (shift - k) as u64 * 0x80_0000 + sig;
    if m >= INFINITY as u64 {
        INFINITY
    } else {
        m as u32
    }
}

/// Splits the magnitude of a finite sample into its significand and scale.
fn split(m: u32) -> (r: (u64, u32))
    requires
        m < INFINITY,
    ensures
        r.0 == significand_of(m),
        r.1 == scale_of(m),
        r.0 < 0x100_0000,
        r.1 <= 253,
        r.1 > 0 ==> r.0 >= 0x80_0000,
        m == r.1 * 0x80_0000 + r.0,
{
    let exponent = m / HIDDEN;
    let fraction = m % HIDDEN;
    if exponent == 0 {
        (fraction as u64, 0)
    } else {
        ((HIDDEN + fraction) as u64, exponent - 1)
    }
}

/// Gives a sample the other sign.
pub fn neg(a: u32) -> (r: u32)
    ensures
        r == neg_of(a),
{
    if a >= SIGN_BIT {
        a - SIGN_BIT
    } else {
        a + SIGN_BIT
    }
}

/// Makes the sample that is the whole number `r`.
pub fn from_u8(r: u8) -> (bits: u32)
    ensures
        bits == of_u8(r),
{
    round(r as u64, 149, 0)
}

/// Multiplies two samples.
pub fn times(a: u32, b: u32) -> (r: u32)
    ensures
        r == mul_of(a, b),
{
    let ma = magnitude(a);
    let mb = magnitude(b);
    if ma > INFINITY || mb > INFINITY {
        return NAN;
    }
    if (ma == INFINITY && mb == 0) || (mb == INFINITY && ma == 0) {
        return NAN;
    }
    let m: u32 = if ma == INFINITY || mb == INFINITY {
        INFINITY
    } else {
        let (sa, xa) = split(ma);
        let (sb, xb) = split(mb);
        proof {
            lemma_pow2_adds(xa as nat, xb as nat);
            let ta = pow2(xa as nat) as int;
            let tb = pow2(xb as nat) as int;
            assert((sa * ta) * (sb * tb) == (sa * sb) * (ta * tb)) by (nonlinear_arith);
            assert(sa * sb < 0x1_0000_0000_0000) by (nonlinear_arith)
                requires
                    sa < 0x100_0000,
                    sb < 0x100_0000,
            ;
        }
        round(sa * sb, xa + xb, 149)
    };
    if (a >= SIGN_BIT) != (b >= SIGN_BIT) {
        SIGN_BIT + m
    } else {
        m
    }
}

/// A sample of scale `x` and significand `s` keeps its magnitude when less
/// than a quarter of two to the power `x` is added to its absolute value.
proof fn lemma_far_sum(s: int, x: nat, r: int)
    requires
        0x80_0000 <= s < 0x100_0000,
        0 <= r,
        4 * r < pow2(x),
        x * 0x80_0000 + s < INFINITY,
    ensures
        round_magnitude(s * pow2(x) + r, 0) == x * 0x80_0000 + s,
{
    let w = pow2(x) as int;
    let n = s * w + r;
    lemma2_to64();
    lemma_pow2_adds(23, x);
    lemma_pow2_adds(24, x);
    assert(0x80_0000 * w <= n < 0x100_0000 * w) by (nonlinear_arith)
        requires
            n == s * w + r,
            0x80_0000 <= s < 0x100_0000,
            0 <= r,
            4 * r < w,
    ;
    lemma_bit_length(n, 24 + x);
    lemma_fundamental_div_mod_converse(n, w, s, r);
}

/// A sample of scale `x` and significand `s` keeps its magnitude when less
/// than a quarter of two to the power `x` is taken from its absolute value.
proof fn lemma_far_difference(s: int, x: nat, r: int)
    requires
        0x80_0000 <= s < 0x100_0000,
        0 < r,
        4 * r < pow2(x),
        x * 0x80_0000 + s < INFINITY,
    ensures
        round_magnitude(s * pow2(x) - r, 0) == x * 0x80_0000 + s,
{
    let w = pow2(x) as int;
    let n = s * w - r;
    lemma2_to64();
    if x < 3 {
        lemma_pow2_increases(x, 2);
    }
    assert(x >= 3);
    if s > 0x80_0000 {
        lemma_pow2_adds(23, x);
        lemma_pow2_adds(24, x);
        assert(0x80_0000 * w <= n < 0x100_0000 * w && n == (s - 1) * w + (w - r)) by (nonlinear_arith)
            requires
                n == s * w - r,
                0x80_0000 < s < 0x100_0000,
                0 < r,
                4 * r < w,
        ;
        lemma_bit_length(n, 24 + x);
        lemma_fundamental_div_mod_converse(n, w, s - 1, w - r);
    } else {
        let h = pow2((x - 1) as nat) as int;
        lemma_pow2_unfold(x);
        lemma_pow2_adds(23, (x - 1) as nat);
        lemma_pow2_adds(24, (x - 1) as nat);
        assert(0x80_0000 * h <= n < 0x100_0000 * h && n == 0xFF_FFFF * h + (h - r)) by (nonlinear_arith)
            requires
                n == s * w - r,
                s == 0x80_0000,
                w == 2 * h,
                0 < r,
                4 * r < w,
        ;
        lemma_bit_length(n, (23 + x) as nat);
        lemma_fundamental_div_mod_converse(n, h, 0xFF_FFFF, h - r);
        assert(bit_length(n) - 24 == x - 1);
    }
}

/// Adds two samples.
pub fn plus(a: u32, b: u32) -> (r: u32)
    ensures
        r == add_of(a, b),
{
    let ma = magnitude(a);
    let mb = magnitude(b);
    if ma > INFINITY || mb > INFINITY {
        return NAN;
    }
    let na = a >= SIGN_BIT;
    let nb = b >= SIGN_BIT;
    if ma == INFINITY {
        if mb == INFINITY && na != nb {
            return NAN;
        }
        return a;
    }
    if mb == INFINITY {
        return b;
    }
    let (sa, xa) = split(ma);
    let (sb, xb) = split(mb);
    // The operand of the larger scale comes first.
    let swap = xa < xb;
    let (s1, x1, n1, whole) = if swap { (sb, xb, nb, b) } else { (sa, xa, na, a) };
    let (s2, x2, n2) = if swap { (sa, xa, na) } else { (sb, xb, nb) };
    let gap = x1 - x2;
    let ghost w1 = pow2(x1 as nat) as int;
    let ghost w2 = pow2(x2 as nat) as int;
    let ghost total = signed_units_of(a) + signed_units_of(b);
    proof {
        lemma_pow2_pos(x2 as nat);
    }
    if gap >= 26 {
        proof {
            lemma2_to64();
            lemma_pow2_adds(24, x2 as nat);
            lemma_pow2_increases((24 + x2) as nat, (x1 - 2) as nat);
            lemma_pow2_adds(2, (x1 - 2) as nat);
            let rest = s2 * w2;
            assert(0 <= rest < 0x100_0000 * w2) by (nonlinear_arith)
                requires
                    rest == s2 * w2,
                    0 <= s2 < 0x100_0000,
                    w2 > 0,
            ;
            if n1 == n2 || rest == 0 {
                lemma_far_sum(s1 as int, x1 as nat, rest);
            } else {
                lemma_far_difference(s1 as int, x1 as nat, rest);
            }
        }
        return whole;
    }
    let factor = power_of_two(gap);
    proof {
        lemma2_to64();
        lemma_pow2_adds(gap as nat, x2 as nat);
        assert(s1 * factor < 0x100_0000 * 0x200_0000) by (nonlinear_arith)
            requires
                0 <= s1 < 0x100_0000,
                0 < factor <= 0x200_0000,
        ;
    }
    let big: u64 = s1 * factor;
    let ghost f = factor as int;
    proof {
        assert(s1 * w1 == big * w2) by (nonlinear_arith)
            requires
                big == s1 * f,
                w1 == f * w2,
        ;
    }
    let negative: bool;
    let sum: u64;
    if n1 == n2 {
        sum = big + s2;
        negative = n1;
        proof {
            assert(big * w2 + s2 * w2 == sum * w2) by (nonlinear_arith)
                requires
                    sum == big + s2,
            ;
        }
    } else if big >= s2 {
        sum = big - s2;
        negative = n1;
        proof {
            assert(big * w2 - s2 * w2 == sum * w2) by (nonlinear_arith)
                requires
                    sum == big - s2,
            ;
        }
    } else {
        sum = s2 - big;
        negative = n2;
        proof {
            assert(s2 * w2 - big * w2 == sum * w2) by (nonlinear_arith)
                requires
                    sum == s2 - big,
            ;
        }
    }
    proof {
        assert((sum == 0) == (sum * w2 == 0)) by (nonlinear_arith)
            requires
                w2 > 0,
                sum >= 0,
        ;
    }
    if sum == 0 {
        if na && nb {
            return SIGN_BIT;
        }
        return 0;
    }
    let m = round(sum, x2, 0);
    if negative {
        SIGN_BIT + m
    } else {
        m
    }
}

/// Subtracts the second sample from the first.
pub fn minus(a: u32, b: u32) -> (r: u32)
    ensures
        r == sub_of(a, b),
{
    plus(a, neg(b))
}

/// Rounding leaves a finite sample as it is: the magnitude nearest to the
/// absolute value of a sample is the magnitude of the sample.
pub proof fn rounding_keeps_samples(a: u32)
    requires
        magnitude_of(a) < INFINITY,
    ensures
        round_magnitude(units_of(a), 0) == magnitude_of(a),
{
    let s = significand_of(a);
    let x = scale_of(a);
    lemma2_to64();
    if magnitude_of(a) / 0x80_0000 == 0 {
        lemma_bit_length_below(s, 24);
    } else {
        lemma_pow2_pos(x);
        lemma_far_sum(s, x, 0);
    }
}

/// A number below a power of two has no more binary digits than the
/// exponent.
proof fn lemma_bit_length_below(n: int, len: nat)
    requires
        n < pow2(len),
    ensures
        bit_length(n) <= len,
    decreases len,
{
    if n > 0 {
        if len == 0 {
            lemma2_to64();
        } else {
            lemma_pow2_unfold(len);
            lemma_bit_length_below(n / 2, (len - 1) as nat);
        }
    }
}

/// Adding zero to a finite sample other than zero gives the sample.
pub proof fn adding_zero_keeps_samples(a: u32)
    requires
        0 < magnitude_of(a) < INFINITY,
    ensures
        add_of(a, 0) == a,
        add_of(0, a) == a,
{
    rounding_keeps_samples(a);
    lemma_zero_has_no_units();
    lemma_pow2_pos(scale_of(a));
    assert(units_of(a) > 0) by (nonlinear_arith)
        requires
            units_of(a) == significand_of(a) * pow2(scale_of(a)),
            significand_of(a) > 0,
            pow2(scale_of(a)) > 0,
    ;
}

/// The absolute value of zero is no unit.
pub(crate) proof fn lemma_zero_has_no_units()
    ensures
        units_of(0) == 0,
{
    assert(units_of(0) == 0) by (nonlinear_arith)
        requires
            units_of(0) == significand_of(0) * pow2(scale_of(0)),
            significand_of(0) == 0,
    ;
}

} // verus!
