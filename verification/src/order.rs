//! The order of samples by value, and how sums and differences keep it.
//!
//! A sample that is a number has a place in the order of values: its
//! magnitude, negated where the sample is negative. The two zeros share a
//! place.

use crate::binary32::{
    add_of, bit_length, lemma_zero_has_no_units, is_infinite, is_nan, is_negative, neg_of,
    round_half_even, round_magnitude, rounding_keeps_samples, scale_of, signed_units_of,
    significand_of, sub_of, units_of,
};
use crate::sample::{magnitude_of, INFINITY, SIGN_BIT};
use vstd::arithmetic::div_mod::{
    lemma_div_is_ordered, lemma_div_multiples_vanish, lemma_fundamental_div_mod,
    lemma_fundamental_div_mod_converse,
};
use vstd::arithmetic::power2::{
    lemma2_to64, lemma_pow2_adds, lemma_pow2_pos, lemma_pow2_strictly_increases, lemma_pow2_unfold,
    pow2,
};
use vstd::prelude::*;

verus! {

/// The place of a sample in the order of values.
pub open spec fn key_of(bits: u32) -> int {
    if bits >= SIGN_BIT {
        -magnitude_of(bits)
    } else {
        magnitude_of(bits)
    }
}

/// Computes the place of a sample in the order of values.
pub fn key(bits: u32) -> (k: i64)
    ensures
        k == key_of(bits),
{
    if bits >= SIGN_BIT {
        -((bits - SIGN_BIT) as i64)
    } else {
        bits as i64
    }
}

/// The place in the order of values of the sample nearest to `s` units.
pub open spec fn key_rounded(s: int) -> int {
    if s > 0 {
        round_magnitude(s, 0)
    } else if s < 0 {
        -round_magnitude(-s, 0)
    } else {
        0
    }
}

/// A larger number rounds to no smaller a quotient.
proof fn lemma_round_half_even_ordered(n: int, m: int, d: int)
    requires
        0 <= n <= m,
        0 < d,
    ensures
        round_half_even(n, d) <= round_half_even(m, d),
{
    lemma_div_is_ordered(n, m, d);
    lemma_fundamental_div_mod(n, d);
    lemma_fundamental_div_mod(m, d);
    let q = n / d;
    let p = m / d;
    if q == p {
        assert(d * q == d * p);
    }
}

/// A larger number has no fewer binary digits.
proof fn lemma_bit_length_ordered(n: int, m: int)
    requires
        n <= m,
    ensures
        bit_length(n) <= bit_length(m),
    decreases m,
{
    if n > 0 {
        lemma_bit_length_ordered(n / 2, m / 2);
    }
}

/// A number lies between the two powers of two that its binary digits give.
pub(crate) proof fn lemma_bit_length_bounds(n: int)
    requires
        n > 0,
    ensures
        pow2((bit_length(n) - 1) as nat) <= n < pow2(bit_length(n)),
    decreases n,
{
    lemma2_to64();
    if n == 1 {
        assert(bit_length(1) == 1 + bit_length(0));
    } else {
        lemma_bit_length_bounds(n / 2);
        lemma_pow2_unfold(bit_length(n));
        lemma_pow2_unfold((bit_length(n) - 1) as nat);
    }
}

/// The shift by which `round_magnitude` divides `n`.
spec fn shift_of(n: int, k: int) -> int {
    if bit_length(n) - 24 > k {
        bit_length(n) - 24
    } else {
        k
    }
}

/// The quotient of a number by two to the power of its shift is below two
/// to the power 24, and so its rounding is at most that.
proof fn lemma_rounded_quotient_limit(n: int, k: int)
    requires
        0 <= n,
        0 <= k,
    ensures
        0 <= round_half_even(n, pow2(shift_of(n, k) as nat) as int) <= 0x100_0000,
{
    let s = shift_of(n, k) as nat;
    let d = pow2(s) as int;
    lemma_pow2_pos(s);
    lemma2_to64();
    lemma_fundamental_div_mod(n, d);
    if n > 0 {
        lemma_bit_length_bounds(n);
        if bit_length(n) < s + 24 {
            lemma_pow2_strictly_increases(bit_length(n), s + 24);
        }
        lemma_pow2_adds(24, s);
        assert(n < 0x100_0000 * d);
        lemma_div_is_ordered(n, 0x100_0000 * d - 1, d);
        lemma_fundamental_div_mod(0x100_0000 * d - 1, d);
        let q = (0x100_0000 * d - 1) / d;
        assert(q < 0x100_0000) by (nonlinear_arith)
            requires
                0x100_0000 * d - 1 == d * q + (0x100_0000 * d - 1) % d,
                0 <= (0x100_0000 * d - 1) % d,
                d > 0,
        ;
        lemma_div_is_ordered(0, n, d);
    } else {
        assert(0int / d == 0 && 0int % d == 0) by {
            vstd::arithmetic::div_mod::lemma_fundamental_div_mod_converse(0, d, 0, 0);
        }
    }
}

/// Where rounding shifts a number at all beyond `k`, its quotient has the
/// hidden bit.
proof fn lemma_rounded_quotient_floor(n: int, k: int)
    requires
        0 < n,
        0 <= k,
        shift_of(n, k) > k,
    ensures
        round_half_even(n, pow2(shift_of(n, k) as nat) as int) >= 0x80_0000,
{
    let s = shift_of(n, k) as nat;
    let d = pow2(s) as int;
    lemma_pow2_pos(s);
    lemma2_to64();
    lemma_bit_length_bounds(n);
    lemma_pow2_adds(23, s);
    assert(0x80_0000 * d <= n);
    lemma_div_is_ordered(0x80_0000 * d, n, d);
    lemma_div_multiples_vanish(0x80_0000, d);
}

/// Rounding keeps the order: a larger number of units rounds to no smaller a
/// magnitude.
pub proof fn rounding_keeps_order(n: int, m: int, k: int)
    requires
        0 <= n <= m,
        0 <= k,
    ensures
        0 <= round_magnitude(n, k) <= round_magnitude(m, k) <= INFINITY,
{
    lemma_bit_length_ordered(n, m);
    lemma_rounded_quotient_limit(n, k);
    lemma_rounded_quotient_limit(m, k);
    let s = shift_of(n, k);
    let t = shift_of(m, k);
    if s == t {
        lemma_pow2_pos(s as nat);
        lemma_round_half_even_ordered(n, m, pow2(s as nat) as int);
    } else {
        lemma_rounded_quotient_floor(m, k);
    }
}

/// A sample of larger magnitude has no smaller an absolute value.
pub proof fn units_keep_order(a: u32, b: u32)
    requires
        magnitude_of(a) <= magnitude_of(b) < INFINITY,
    ensures
        0 <= units_of(a) <= units_of(b),
{
    let x = scale_of(a);
    let y = scale_of(b);
    let s = significand_of(a);
    let t = significand_of(b);
    lemma_pow2_pos(x);
    lemma_pow2_pos(y);
    let w = pow2(x) as int;
    let v = pow2(y) as int;
    assert(0 <= s * w) by (nonlinear_arith)
        requires
            0 <= s,
            0 < w,
    ;
    if magnitude_of(a) / 0x80_0000 == magnitude_of(b) / 0x80_0000 {
        assert(s * w <= t * v) by (nonlinear_arith)
            requires
                0 <= s <= t,
                0 < w == v,
        ;
    } else {
        // The sample of the smaller exponent stays below the least sample
        // of the larger.
        if x < y {
            lemma_pow2_unfold((x + 1) as nat);
            if x + 1 < y {
                lemma_pow2_strictly_increases((x + 1) as nat, y);
            }
        }
        assert(s * w <= t * v) by (nonlinear_arith)
            requires
                0 <= s < 0x100_0000,
                0x80_0000 <= t,
                0 < w,
                (s < 0x80_0000 && w <= v) || 2 * w <= v,
        ;
    }
}

/// The place of a finite sample is the place of the sample nearest to its
/// own value.
pub proof fn key_of_finite(a: u32)
    requires
        magnitude_of(a) < INFINITY,
    ensures
        key_of(a) == key_rounded(signed_units_of(a)),
{
    rounding_keeps_samples(a);
    units_keep_order(0, a);
    lemma_pow2_pos(scale_of(a));
    let s = significand_of(a);
    let w = pow2(scale_of(a)) as int;
    assert((s * w == 0) == (s == 0)) by (nonlinear_arith)
        requires
            0 <= s,
            0 < w,
    ;
}

/// The place of the sum of two finite samples is the place of the sample
/// nearest to the sum of their values.
pub proof fn key_of_sum(a: u32, b: u32)
    requires
        magnitude_of(a) < INFINITY,
        magnitude_of(b) < INFINITY,
    ensures
        !is_nan(add_of(a, b)),
        key_of(add_of(a, b)) == key_rounded(signed_units_of(a) + signed_units_of(b)),
{
    let s = signed_units_of(a) + signed_units_of(b);
    if s > 0 {
        rounding_keeps_order(s, s, 0);
    } else if s < 0 {
        rounding_keeps_order(-s, -s, 0);
    }
}

/// Rounding keeps the order of values of either sign.
pub proof fn key_rounded_keeps_order(s: int, t: int)
    requires
        s <= t,
    ensures
        key_rounded(s) <= key_rounded(t),
{
    if s > 0 {
        rounding_keeps_order(s, t, 0);
    } else if t < 0 {
        rounding_keeps_order(-t, -s, 0);
    } else {
        if s < 0 {
            rounding_keeps_order(-s, -s, 0);
        }
        if t > 0 {
            rounding_keeps_order(t, t, 0);
        }
    }
}

/// A sample of a later place has no smaller a value.
pub proof fn signed_units_keep_order(a: u32, b: u32)
    requires
        magnitude_of(a) < INFINITY,
        magnitude_of(b) < INFINITY,
        key_of(a) <= key_of(b),
    ensures
        signed_units_of(a) <= signed_units_of(b),
{
    units_keep_order(0, a);
    units_keep_order(0, b);
    if is_negative(a) && is_negative(b) {
        units_keep_order(b, a);
    } else if !is_negative(a) && !is_negative(b) {
        units_keep_order(a, b);
    } else if !is_negative(a) && is_negative(b) {
        // Both are zeros.
        units_keep_order(a, 0);
        units_keep_order(b, 0);
        lemma_zero_has_no_units();
    }
}

/// Taking a finite sample that is not negative from a number gives a number
/// of no later place.
pub proof fn difference_is_no_later(x: u32, w: u32)
    requires
        !is_nan(x),
        magnitude_of(w) < INFINITY,
        !is_negative(w),
    ensures
        !is_nan(sub_of(x, w)),
        key_of(sub_of(x, w)) <= key_of(x),
{
    if !is_infinite(x) {
        let m = neg_of(w);
        key_of_sum(x, m);
        key_of_finite(x);
        units_keep_order(0, w);
        key_rounded_keeps_order(signed_units_of(x) + signed_units_of(m), signed_units_of(x));
    }
}

/// Taking the same finite sample from two numbers keeps their order.
pub proof fn differences_keep_order(x: u32, y: u32, w: u32)
    requires
        !is_nan(x),
        !is_nan(y),
        magnitude_of(w) < INFINITY,
        key_of(x) <= key_of(y),
    ensures
        !is_nan(sub_of(x, w)),
        !is_nan(sub_of(y, w)),
        key_of(sub_of(x, w)) <= key_of(sub_of(y, w)),
{
    let m = neg_of(w);
    if !is_infinite(x) && !is_infinite(y) {
        key_of_sum(x, m);
        key_of_sum(y, m);
        signed_units_keep_order(x, y);
        key_rounded_keeps_order(
            signed_units_of(x) + signed_units_of(m),
            signed_units_of(y) + signed_units_of(m),
        );
    } else if !is_infinite(x) {
        key_of_sum(x, m);
        rounding_keeps_order(0, 0, 0);
        let s = signed_units_of(x) + signed_units_of(m);
        if s > 0 {
            rounding_keeps_order(s, s, 0);
        } else if s < 0 {
            rounding_keeps_order(-s, -s, 0);
        }
    } else if !is_infinite(y) {
        key_of_sum(y, m);
        let s = signed_units_of(y) + signed_units_of(m);
        if s > 0 {
            rounding_keeps_order(s, s, 0);
        } else if s < 0 {
            rounding_keeps_order(-s, -s, 0);
        }
    }
}

/// The distance between two numbers.
pub open spec fn gap(a: int, b: int) -> int {
    if a >= b {
        a - b
    } else {
        b - a
    }
}

/// The absolute value of the sample whose magnitude is `x` steps of the
/// exponent field and `v` more, where `v` has the hidden bit unless `x` is 0.
proof fn lemma_units_of_parts(x: nat, v: int)
    requires
        0 <= v <= 0x100_0000,
        x > 0 ==> v >= 0x80_0000,
        x * 0x80_0000 + v < INFINITY,
    ensures
        units_of((x * 0x80_0000 + v) as u32) == v * pow2(x),
{
    let b = (x * 0x80_0000 + v) as u32;
    lemma2_to64();
    if v < 0x80_0000 {
        assert(b / 0x80_0000 == 0 && b % 0x80_0000 == v);
        assert(v * pow2(0) == v * 1);
    } else if v < 0x100_0000 {
        lemma_fundamental_div_mod_converse(b as int, 0x80_0000, x as int + 1, v - 0x80_0000);
    } else {
        lemma_fundamental_div_mod_converse(b as int, 0x80_0000, x as int + 2, 0);
        lemma_pow2_unfold(x + 1);
        let w = pow2(x) as int;
        assert(0x80_0000 * (2 * w) == 0x100_0000 * w) by (nonlinear_arith);
    }
}

/// Rounding is to the nearest sample: no finite sample is nearer to `n`
/// units of 2^-(149 + `k`) than the one that `round_magnitude` gives, where
/// that is finite.
pub proof fn rounding_is_nearest(n: int, k: nat, m: u32)
    requires
        0 <= n,
        round_magnitude(n, k as int) < INFINITY,
        m < INFINITY,
    ensures
        gap(units_of(round_magnitude(n, k as int) as u32) * pow2(k), n) <= gap(
            units_of(m) * pow2(k),
            n,
        ),
{
    let shift = shift_of(n, k as int) as nat;
    let x = (shift - k) as nat;
    let d = pow2(shift) as int;
    let t = pow2(k) as int;
    let e = pow2(x) as int;
    let q = n / d;
    let r = n % d;
    let v = round_half_even(n, d);
    lemma_pow2_pos(shift);
    lemma_pow2_pos(k);
    lemma_pow2_pos(x);
    lemma_pow2_adds(x, k);
    lemma_fundamental_div_mod(n, d);
    lemma_rounded_quotient_limit(n, k as int);
    if x > 0 {
        lemma_rounded_quotient_floor(n, k as int);
    }
    lemma_units_of_parts(x, v);
    // The sample that rounding gives lies `v` times `d` from zero, the nearer
    // of the two multiples of `d` around `n`.
    let mine = units_of(round_magnitude(n, k as int) as u32) * t;
    assert(mine == v * d) by (nonlinear_arith)
        requires
            mine == (v * e) * t,
            d == e * t,
    ;
    assert(gap(mine, n) <= r && gap(mine, n) <= d - r) by (nonlinear_arith)
        requires
            mine == v * d,
            n == d * q + r,
            0 <= r < d,
            v == q + 1 || v == q,
            v == q + 1 ==> 2 * r >= d,
            v == q ==> 2 * r <= d,
            gap(mine, n) == if mine >= n { mine - n } else { n - mine },
    ;
    let s = significand_of(m);
    let y = scale_of(m);
    let w = pow2(y) as int;
    lemma_pow2_pos(y);
    let other = units_of(m) * t;
    if y >= x {
        // A multiple of `d`.
        lemma_pow2_adds((y - x) as nat, shift);
        lemma_pow2_adds(y, k);
        let j = s * pow2((y - x) as nat);
        assert(other == j * d) by (nonlinear_arith)
            requires
                other == (s * w) * t,
                w * t == pow2((y - x) as nat) * d,
                j == s * pow2((y - x) as nat),
        ;
        assert(gap(other, n) >= r || gap(other, n) >= d - r) by (nonlinear_arith)
            requires
                other == j * d,
                n == d * q + r,
                0 <= r < d,
                gap(other, n) == if other >= n { other - n } else { n - other },
        ;
    } else {
        // A sample of a finer scale lies below the least multiple of `d`
        // that has the hidden bit, and so below `n`.
        lemma2_to64();
        lemma_bit_length_bounds(n);
        lemma_pow2_adds(23, shift);
        lemma_pow2_adds(y + 1, k);
        lemma_pow2_unfold(y + 1);
        if y + 1 < x {
            lemma_pow2_strictly_increases(y + 1, x);
        }
        lemma_pow2_adds((y + 1) as nat, k);
        assert(other < 0x80_0000 * d) by (nonlinear_arith)
            requires
                other == (s * w) * t,
                0 <= s < 0x100_0000,
                0 < w,
                0 < t,
                2 * w <= e,
                d == e * t,
        ;
        assert(0x80_0000 * d <= d * q) by {
            lemma_div_is_ordered(0x80_0000 * d, n, d);
            lemma_div_multiples_vanish(0x80_0000, d);
            assert(0x80_0000 * d <= d * q) by (nonlinear_arith)
                requires
                    0x80_0000 <= q,
                    0 < d,
            ;
        }
    }
}

} // verus!
