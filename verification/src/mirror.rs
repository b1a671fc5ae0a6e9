//! The decomposition of the negative of a plane is the negative of its
//! decomposition, sample by sample, but for the signs of zeros.

use crate::binary32::{
    add_of, is_nan, is_negative, lemma_zero_has_no_units, mul_of, neg_of, signed_units_of, sub_of,
    units_of, ONE,
};
use crate::bounds::{
    decomposed_is_bounded, decomposed_keeps_length, difference_is_bounded, product_is_bounded,
    sum_is_bounded, within, PLANE_LIMIT, ROWS_LIMIT, STEP,
};
use crate::order::{rounding_keeps_order, units_keep_order};
use crate::sample::{magnitude_of, INFINITY};
use crate::wavelet::{
    column_of, columns_decomposed, decomposed, differences_of, haar1d_of, haar2d_of, row_of,
    rows_decomposed, sums_of, HALF_ROOT,
};
use crate::weights::{NUM_PIXELS, NUM_PIXELS2};
use vstd::arithmetic::power2::{lemma2_to64, lemma_pow2_pos, lemma_pow2_unfold, pow2};
use vstd::prelude::*;

verus! {

/// `b` is the negative of the number `a`: of the same magnitude and, unless
/// both are zero, of the other sign.
pub open spec fn mirrors(a: u32, b: u32) -> bool {
    &&& !is_nan(a)
    &&& magnitude_of(b) == magnitude_of(a)
    &&& magnitude_of(a) > 0 ==> is_negative(a) != is_negative(b)
}

/// Every sample of the second line is the negative of the sample at its
/// place in the first.
pub open spec fn line_mirrors(s: Seq<u32>, t: Seq<u32>) -> bool {
    &&& s.len() == t.len()
    &&& forall|j: int| 0 <= j < s.len() ==> mirrors(#[trigger] s[j], t[j])
}

/// The value of the negative of a finite sample is the negative of its
/// value.
proof fn lemma_mirrored_units(a: u32, b: u32)
    requires
        mirrors(a, b),
        magnitude_of(a) < INFINITY,
    ensures
        signed_units_of(b) == -signed_units_of(a),
        units_of(b) == units_of(a),
        0 <= units_of(a),
{
    units_keep_order(0, a);
    if magnitude_of(a) == 0 {
        units_keep_order(a, 0);
        units_keep_order(b, 0);
        lemma_zero_has_no_units();
    }
}

/// The sum of the negatives of two finite samples is the negative of their
/// sum.
pub proof fn sum_mirrors(a: u32, b: u32, c: u32, d: u32)
    requires
        mirrors(a, c),
        mirrors(b, d),
        magnitude_of(a) < INFINITY,
        magnitude_of(b) < INFINITY,
    ensures
        mirrors(add_of(a, b), add_of(c, d)),
{
    lemma_mirrored_units(a, c);
    lemma_mirrored_units(b, d);
    let s = signed_units_of(a) + signed_units_of(b);
    if s > 0 {
        rounding_keeps_order(s, s, 0);
    } else if s < 0 {
        rounding_keeps_order(-s, -s, 0);
    }
}

/// The difference of the negatives of two finite samples is the negative of
/// their difference.
pub proof fn difference_mirrors(a: u32, b: u32, c: u32, d: u32)
    requires
        mirrors(a, c),
        mirrors(b, d),
        magnitude_of(a) < INFINITY,
        magnitude_of(b) < INFINITY,
    ensures
        mirrors(sub_of(a, b), sub_of(c, d)),
{
    sum_mirrors(a, neg_of(b), c, neg_of(d));
}

/// The product of the negative of a finite sample with a finite sample is
/// the negative of the product of the two.
pub proof fn product_mirrors(a: u32, c: u32, f: u32)
    requires
        mirrors(a, c),
        magnitude_of(a) < INFINITY,
        magnitude_of(f) < INFINITY,
    ensures
        mirrors(mul_of(a, f), mul_of(c, f)),
{
    lemma_mirrored_units(a, c);
    units_keep_order(0, f);
    let u = units_of(a);
    let v = units_of(f);
    let n = u * v;
    assert(0 <= n && (u == 0 ==> n == 0)) by (nonlinear_arith)
        requires
            n == u * v,
            0 <= u,
            0 <= v,
    ;
    rounding_keeps_order(n, n, 149);
    if magnitude_of(a) == 0 {
        rounding_keeps_order(0, 0, 149);
        lemma_pow2_pos(149);
        vstd::arithmetic::div_mod::lemma_fundamental_div_mod_converse(0, pow2(149) as int, 0, 0);
        assert(crate::binary32::bit_length(0) == 0);
    }
}

/// The decomposition of the negative of a line is the negative of the
/// decomposition of the line, where the line is within a limit that
/// `levels` doublings keep finite.
pub proof fn decomposed_mirrors(s: Seq<u32>, t: Seq<u32>, c: u32, limit: u32, levels: nat)
    requires
        s.len() == pow2(levels),
        line_mirrors(s, t),
        within(s, limit),
        magnitude_of(c) <= ONE,
        STEP <= limit,
        limit + levels * STEP < INFINITY,
    ensures
        line_mirrors(decomposed(s, c), decomposed(t, c)),
    decreases levels,
{
    lemma2_to64();
    let out = decomposed(s, c);
    let other = decomposed(t, c);
    decomposed_keeps_length(s, c, levels);
    decomposed_keeps_length(t, c, levels);
    if levels == 0 {
        assert forall|j: int| 0 <= j < out.len() implies mirrors(#[trigger] out[j], other[j]) by {
            assert(mirrors(s[j], t[j]));
            product_mirrors(s[j], t[j], c);
        }
    } else {
        lemma_pow2_unfold(levels);
        lemma_pow2_pos((levels - 1) as nat);
        let next = mul_of(c, HALF_ROOT);
        product_is_bounded(c, HALF_ROOT);
        let raised = (limit + STEP) as u32;
        assert(levels * STEP == STEP + (levels - 1) * STEP) by (nonlinear_arith);
        let sums = sums_of(s);
        let mirrored = sums_of(t);
        assert forall|k: int| 0 <= k < sums.len() implies mirrors(#[trigger] sums[k], mirrored[k])
            && magnitude_of(sums[k]) <= raised by {
            assert(mirrors(s[2 * k], t[2 * k]));
            assert(mirrors(s[2 * k + 1], t[2 * k + 1]));
            sum_mirrors(s[2 * k], s[2 * k + 1], t[2 * k], t[2 * k + 1]);
            sum_is_bounded(s[2 * k], s[2 * k + 1], limit);
        }
        let differences = differences_of(s, next);
        let opposite = differences_of(t, next);
        assert forall|k: int| 0 <= k < differences.len() implies mirrors(
            #[trigger] differences[k],
            opposite[k],
        ) by {
            assert(mirrors(s[2 * k], t[2 * k]));
            assert(mirrors(s[2 * k + 1], t[2 * k + 1]));
            difference_mirrors(s[2 * k], s[2 * k + 1], t[2 * k], t[2 * k + 1]);
            difference_is_bounded(s[2 * k], s[2 * k + 1], limit);
            product_mirrors(sub_of(s[2 * k], s[2 * k + 1]), sub_of(t[2 * k], t[2 * k + 1]), next);
        }
        decomposed_mirrors(sums, mirrored, next, raised, (levels - 1) as nat);
        decomposed_keeps_length(sums, next, (levels - 1) as nat);
        decomposed_keeps_length(mirrored, next, (levels - 1) as nat);
        let front = decomposed(sums, next);
        let back = decomposed(mirrored, next);
        assert forall|j: int| 0 <= j < out.len() implies mirrors(#[trigger] out[j], other[j]) by {
            if j < front.len() {
                assert(out[j] == front[j]);
                assert(other[j] == back[j]);
                assert(mirrors(front[j], back[j]));
            } else {
                assert(out[j] == differences[j - front.len()]);
                assert(other[j] == opposite[j - back.len()]);
                assert(mirrors(differences[j - front.len()], opposite[j - front.len()]));
            }
        }
    }
}

/// The decomposition of the negative of a plane is the negative of the
/// decomposition of the plane, where the plane is within the magnitude of
/// 1024, as every colour plane is.
pub proof fn haar2d_mirrors(plane: Seq<u32>, other: Seq<u32>)
    requires
        plane.len() == NUM_PIXELS2,
        line_mirrors(plane, other),
        within(plane, PLANE_LIMIT),
    ensures
        line_mirrors(haar2d_of(plane), haar2d_of(other)),
{
    lemma2_to64();
    let middle = rows_decomposed(plane);
    let mirrored = rows_decomposed(other);
    assert forall|p: int| 0 <= p < NUM_PIXELS2 implies mirrors(#[trigger] middle[p], mirrored[p])
        && magnitude_of(middle[p]) <= ROWS_LIMIT by {
        let r = p / (NUM_PIXELS as int);
        let row = row_of(plane, r);
        let opposite = row_of(other, r);
        assert forall|j: int| 0 <= j < row.len() implies mirrors(#[trigger] row[j], opposite[j])
            && magnitude_of(row[j]) <= PLANE_LIMIT by {
            assert(row[j] == plane[r * NUM_PIXELS + j]);
            assert(opposite[j] == other[r * NUM_PIXELS + j]);
            assert(mirrors(plane[r * NUM_PIXELS + j], other[r * NUM_PIXELS + j]));
        }
        decomposed_keeps_length(row, ONE, 7);
        decomposed_is_bounded(row, ONE, PLANE_LIMIT, 7);
        decomposed_mirrors(row, opposite, ONE, PLANE_LIMIT, 7);
        let j = p % (NUM_PIXELS as int);
        assert(mirrors(haar1d_of(row)[j], haar1d_of(opposite)[j]));
        assert(magnitude_of(haar1d_of(row)[j]) <= ROWS_LIMIT);
    }
    let out = columns_decomposed(middle);
    let back = columns_decomposed(mirrored);
    assert forall|p: int| 0 <= p < NUM_PIXELS2 implies mirrors(#[trigger] out[p], back[p]) by {
        let c = p % (NUM_PIXELS as int);
        let column = column_of(middle, c);
        let opposite = column_of(mirrored, c);
        assert forall|j: int| 0 <= j < column.len() implies mirrors(
            #[trigger] column[j],
            opposite[j],
        ) && magnitude_of(column[j]) <= ROWS_LIMIT by {
            assert(column[j] == middle[j * NUM_PIXELS + c]);
            assert(opposite[j] == mirrored[j * NUM_PIXELS + c]);
            assert(mirrors(middle[j * NUM_PIXELS + c], mirrored[j * NUM_PIXELS + c]));
        }
        decomposed_keeps_length(column, ONE, 7);
        decomposed_mirrors(column, opposite, ONE, ROWS_LIMIT, 7);
        let i = p / (NUM_PIXELS as int);
        assert(mirrors(haar1d_of(column)[i], haar1d_of(opposite)[i]));
    }
}

} // verus!
