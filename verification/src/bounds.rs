//! Limits on the magnitude of sums, differences and products, and with them
//! on every sample that comes of a picture: none is infinite, none is not a
//! number.

use crate::binary32::{
    add_of, bit_length, lemma_bit_length, lemma_scaled_bounds, mul_of, neg_of,
    round_magnitude, rounding_keeps_samples, scale_of, signed_units_of,
    significand_of, sub_of, units_of, ONE,
};
use crate::binary32::of_u8;
use crate::image::{
    first_chroma_of, first_chroma_plane, is_signature_of_pixels, luma_of, luma_plane,
    second_chroma_of, second_chroma_plane, FIRST_BLUE, FIRST_GREEN, FIRST_RED, LUMA_BLUE,
    LUMA_GREEN, LUMA_RED, NUM_BYTES, SECOND_BLUE, SECOND_GREEN, SECOND_RED,
};
use crate::index::IndexView;
use crate::index::{is_ranking, Match};
use crate::laws::{
    are_finite, descent, has_significant, nothing_shared_scores_baselines, stored_image_is_found,
    stored_image_ranks_first, stored_image_scores_least, stores,
};
use crate::order::key_of;
use crate::score::{baseline, score, score_keys, shares, STEPS};
use crate::select::is_leading;
use crate::order::{lemma_bit_length_bounds, rounding_keeps_order, units_keep_order};
use crate::signature::{average_of, SignatureView, DOWN};
use crate::wavelet::{
    column_of, columns_decomposed, decomposed, differences_of, haar1d_of, haar2d_of, row_of,
    rows_decomposed, sums_of, HALF_ROOT,
};
use crate::weights::{CHANNELS, NUM_COEFFS, NUM_PIXELS, NUM_PIXELS2, RESULTS};
use crate::sample::{magnitude_of, INFINITY};
use vstd::arithmetic::div_mod::{lemma_fundamental_div_mod, lemma_fundamental_div_mod_converse};
use vstd::arithmetic::power2::{lemma2_to64, lemma_pow2_adds, lemma_pow2_pos, pow2};
use vstd::prelude::*;

verus! {

/// The magnitude of a power of two: the step of the exponent field.
pub const STEP: u32 = 0x80_0000;

/// A sample whose exponent field is `j` higher has an absolute value two to
/// the power `j` times as large.
pub proof fn exponent_scales_units(m: u32, j: nat)
    requires
        STEP <= m,
        m + j * STEP < INFINITY,
    ensures
        units_of((m + j * STEP) as u32) == pow2(j) * units_of(m),
{
    let n = (m + j * STEP) as u32;
    assert(m / STEP + j == n / STEP && m % STEP == n % STEP) by {
        lemma_fundamental_div_mod(m as int, STEP as int);
        lemma_fundamental_div_mod_converse(n as int, STEP as int, m / STEP + j, (m % STEP) as int);
    }
    lemma_pow2_adds(j, scale_of(m));
    let s = significand_of(m);
    let w = pow2(scale_of(m)) as int;
    let t = pow2(j) as int;
    assert(s * (t * w) == t * (s * w)) by (nonlinear_arith);
}

/// The sum of two samples of magnitude up to `limit` has a magnitude up to
/// that of the sample twice as large.
pub proof fn sum_is_bounded(a: u32, b: u32, limit: u32)
    requires
        magnitude_of(a) <= limit,
        magnitude_of(b) <= limit,
        STEP <= limit,
        limit + STEP < INFINITY,
    ensures
        magnitude_of(add_of(a, b)) <= limit + STEP,
{
    let top = (limit + STEP) as u32;
    lemma2_to64();
    exponent_scales_units(limit, 1);
    units_keep_order(a, limit);
    units_keep_order(b, limit);
    rounding_keeps_samples(top);
    let s = signed_units_of(a) + signed_units_of(b);
    if s > 0 {
        rounding_keeps_order(s, units_of(top), 0);
    } else if s < 0 {
        rounding_keeps_order(-s, units_of(top), 0);
    }
}

/// The difference of two samples of magnitude up to `limit` has a magnitude
/// up to that of the sample twice as large.
pub proof fn difference_is_bounded(a: u32, b: u32, limit: u32)
    requires
        magnitude_of(a) <= limit,
        magnitude_of(b) <= limit,
        STEP <= limit,
        limit + STEP < INFINITY,
    ensures
        magnitude_of(sub_of(a, b)) <= limit + STEP,
{
    sum_is_bounded(a, neg_of(b), limit);
}

/// Scaling a number of units and the unit alike leaves the rounding as it
/// is.
pub proof fn rounding_is_scale_free(u: int, k: nat)
    requires
        0 <= u,
    ensures
        round_magnitude(u * pow2(k), k as int) == round_magnitude(u, 0),
{
    let t = pow2(k) as int;
    lemma_pow2_pos(k);
    if u == 0 {
        assert(u * t == 0) by (nonlinear_arith)
            requires
                u == 0,
        ;
        lemma_fundamental_div_mod_converse(0, t, 0, 0);
        lemma2_to64();
        lemma_fundamental_div_mod_converse(0, 1, 0, 0);
        assert(bit_length(0) == 0);
    } else {
        let len = bit_length(u);
        lemma_bit_length_bounds(u);
        lemma_scaled_bounds(u, len, k);
        lemma_bit_length(u * t, len + k);
        let shift = if len - 24 > 0 { (len - 24) as nat } else { 0nat };
        let d = pow2(shift) as int;
        lemma_pow2_pos(shift);
        lemma_pow2_adds(shift, k);
        lemma_fundamental_div_mod(u, d);
        let q = u / d;
        let r = u % d;
        assert(u * t == q * (d * t) + r * t && 0 <= r * t < d * t && (2 * (r * t) > d * t) == (2
            * r > d) && (2 * (r * t) == d * t) == (2 * r == d)) by (nonlinear_arith)
            requires
                u == d * q + r,
                0 <= r < d,
                t > 0,
        ;
        lemma_fundamental_div_mod_converse(u * t, d * t, q, r * t);
    }
}

/// The product of a finite sample with a sample of magnitude up to one has a
/// magnitude up to that of the first.
pub proof fn product_is_bounded(a: u32, c: u32)
    requires
        magnitude_of(a) < INFINITY,
        magnitude_of(c) <= ONE,
    ensures
        magnitude_of(mul_of(a, c)) <= magnitude_of(a),
        magnitude_of(mul_of(c, a)) <= magnitude_of(a),
{
    lemma2_to64();
    vstd::arithmetic::power2::lemma2_to64_rest();
    units_keep_order(c, ONE);
    units_keep_order(0, a);
    lemma_pow2_adds(23, 126);
    let u = units_of(a);
    let v = units_of(c);
    let one = pow2(149) as int;
    assert(units_of(ONE) == one);
    assert(0 <= u * v <= u * one && v * u == u * v) by (nonlinear_arith)
        requires
            0 <= u,
            0 <= v <= one,
    ;
    rounding_keeps_order(u * v, u * one, 149);
    rounding_is_scale_free(u, 149);
    rounding_keeps_samples(a);
}

/// The product of a sample of magnitude up to `limit` with two to the power
/// `j` has a magnitude up to that of the sample so many times as large.
pub proof fn product_with_power_is_bounded(a: u32, j: nat, limit: u32)
    requires
        magnitude_of(a) <= limit,
        STEP <= limit,
        limit + j * STEP < INFINITY,
        j <= 127,
    ensures
        magnitude_of(mul_of(a, (ONE + j * STEP) as u32)) <= limit + j * STEP,
{
    let factor = (ONE + j * STEP) as u32;
    let top = (limit + j * STEP) as u32;
    lemma2_to64();
    vstd::arithmetic::power2::lemma2_to64_rest();
    lemma_pow2_adds(23, 126);
    let one = pow2(149) as int;
    assert(units_of(ONE) == one);
    exponent_scales_units(ONE, j);
    exponent_scales_units(limit, j);
    units_keep_order(a, limit);
    let u = units_of(a);
    let l = units_of(limit);
    let t = pow2(j) as int;
    lemma_pow2_pos(j);
    assert(u * (t * one) == (u * t) * one && 0 <= u * t <= t * l) by (nonlinear_arith)
        requires
            0 <= u <= l,
            0 < t,
    ;
    rounding_is_scale_free(u * t, 149);
    rounding_keeps_order(u * t, t * l, 0);
    rounding_keeps_samples(top);
}

/// The magnitude of 256, which no byte reaches.
pub const BYTE_LIMIT: u32 = 0x4380_0000;

/// The magnitude of 1024, which no sample of a colour plane exceeds.
pub const PLANE_LIMIT: u32 = 0x4480_0000;

/// The magnitude of two to the power 17, which no sample of a plane with
/// decomposed rows exceeds.
pub const ROWS_LIMIT: u32 = 0x4800_0000;

/// The magnitude of two to the power 24, which no sample of a decomposed
/// plane exceeds.
pub const HAAR_LIMIT: u32 = 0x4B80_0000;

/// Every sample of the line has a magnitude up to `limit`.
pub open spec fn within(s: Seq<u32>, limit: u32) -> bool {
    forall|j: int| 0 <= j < s.len() ==> magnitude_of(#[trigger] s[j]) <= limit
}

/// The sample of a byte has a magnitude below that of 256.
pub proof fn byte_is_bounded(r: u8)
    ensures
        magnitude_of(of_u8(r)) <= BYTE_LIMIT,
{
    lemma2_to64();
    vstd::arithmetic::power2::lemma2_to64_rest();
    lemma_pow2_adds(23, 126);
    exponent_scales_units(ONE, 8);
    lemma_pow2_pos(149);
    let one = pow2(149) as int;
    assert(units_of(ONE) == one);
    assert(0 <= r * one <= 256 * one) by (nonlinear_arith)
        requires
            0 <= r <= 255,
            0 < one,
    ;
    rounding_keeps_order(r * one, 256 * one, 0);
    rounding_keeps_samples(BYTE_LIMIT);
}

/// A share of a byte has a magnitude below that of 256.
proof fn lemma_share_is_bounded(share: u32, r: u8)
    requires
        share <= ONE,
    ensures
        magnitude_of(mul_of(share, of_u8(r))) <= BYTE_LIMIT,
{
    byte_is_bounded(r);
    product_is_bounded(of_u8(r), share);
}

/// The luma and the two chromas of a pixel have a magnitude up to that of
/// 1024.
pub proof fn colours_are_bounded(r: u8, g: u8, b: u8)
    ensures
        magnitude_of(luma_of(r, g, b)) <= PLANE_LIMIT,
        magnitude_of(first_chroma_of(r, g, b)) <= PLANE_LIMIT,
        magnitude_of(second_chroma_of(r, g, b)) <= PLANE_LIMIT,
{
    let middle = (BYTE_LIMIT + STEP) as u32;
    lemma_share_is_bounded(LUMA_RED, r);
    lemma_share_is_bounded(LUMA_GREEN, g);
    lemma_share_is_bounded(LUMA_BLUE, b);
    sum_is_bounded(mul_of(LUMA_RED, of_u8(r)), mul_of(LUMA_GREEN, of_u8(g)), BYTE_LIMIT);
    sum_is_bounded(
        add_of(mul_of(LUMA_RED, of_u8(r)), mul_of(LUMA_GREEN, of_u8(g))),
        mul_of(LUMA_BLUE, of_u8(b)),
        middle,
    );
    lemma_share_is_bounded(FIRST_RED, r);
    lemma_share_is_bounded(FIRST_GREEN, g);
    lemma_share_is_bounded(FIRST_BLUE, b);
    difference_is_bounded(mul_of(FIRST_RED, of_u8(r)), mul_of(FIRST_GREEN, of_u8(g)), BYTE_LIMIT);
    difference_is_bounded(
        sub_of(mul_of(FIRST_RED, of_u8(r)), mul_of(FIRST_GREEN, of_u8(g))),
        mul_of(FIRST_BLUE, of_u8(b)),
        middle,
    );
    lemma_share_is_bounded(SECOND_RED, r);
    lemma_share_is_bounded(SECOND_GREEN, g);
    lemma_share_is_bounded(SECOND_BLUE, b);
    difference_is_bounded(
        mul_of(SECOND_RED, of_u8(r)),
        mul_of(SECOND_GREEN, of_u8(g)),
        BYTE_LIMIT,
    );
    sum_is_bounded(
        sub_of(mul_of(SECOND_RED, of_u8(r)), mul_of(SECOND_GREEN, of_u8(g))),
        mul_of(SECOND_BLUE, of_u8(b)),
        middle,
    );
}

/// The colour planes of a picture stay within the magnitude of 1024.
pub proof fn planes_are_bounded(rgb: Seq<u8>)
    ensures
        within(luma_plane(rgb), PLANE_LIMIT),
        within(first_chroma_plane(rgb), PLANE_LIMIT),
        within(second_chroma_plane(rgb), PLANE_LIMIT),
{
    assert forall|p: int| 0 <= p < rgb.len() / 3 implies magnitude_of(#[trigger] luma_plane(rgb)[p])
        <= PLANE_LIMIT by {
        colours_are_bounded(rgb[3 * p], rgb[3 * p + 1], rgb[3 * p + 2]);
    }
    assert forall|p: int| 0 <= p < rgb.len() / 3 implies magnitude_of(
        #[trigger] first_chroma_plane(rgb)[p],
    ) <= PLANE_LIMIT by {
        colours_are_bounded(rgb[3 * p], rgb[3 * p + 1], rgb[3 * p + 2]);
    }
    assert forall|p: int| 0 <= p < rgb.len() / 3 implies magnitude_of(
        #[trigger] second_chroma_plane(rgb)[p],
    ) <= PLANE_LIMIT by {
        colours_are_bounded(rgb[3 * p], rgb[3 * p + 1], rgb[3 * p + 2]);
    }
}

/// The decomposition of a line of two to the power `levels` samples has as
/// many samples.
pub proof fn decomposed_keeps_length(s: Seq<u32>, c: u32, levels: nat)
    requires
        s.len() == pow2(levels),
    ensures
        decomposed(s, c).len() == s.len(),
    decreases levels,
{
    lemma2_to64();
    if levels > 0 {
        vstd::arithmetic::power2::lemma_pow2_unfold(levels);
        lemma_pow2_pos((levels - 1) as nat);
        decomposed_keeps_length(sums_of(s), mul_of(c, HALF_ROOT), (levels - 1) as nat);
    }
}

/// The decomposition of a line of two to the power `levels` samples, at a
/// scale up to one, exceeds the limit of the line by no more than `levels`
/// doublings.
pub proof fn decomposed_is_bounded(s: Seq<u32>, c: u32, limit: u32, levels: nat)
    requires
        s.len() == pow2(levels),
        within(s, limit),
        magnitude_of(c) <= ONE,
        STEP <= limit,
        limit + levels * STEP < INFINITY,
    ensures
        within(decomposed(s, c), (limit + levels * STEP) as u32),
    decreases levels,
{
    lemma2_to64();
    let out = decomposed(s, c);
    let top = (limit + levels * STEP) as u32;
    if levels == 0 {
        assert forall|j: int| 0 <= j < out.len() implies magnitude_of(#[trigger] out[j]) <= top by {
            product_is_bounded(s[j], c);
        }
    } else {
        vstd::arithmetic::power2::lemma_pow2_unfold(levels);
        lemma_pow2_pos((levels - 1) as nat);
        let next = mul_of(c, HALF_ROOT);
        product_is_bounded(c, HALF_ROOT);
        let sums = sums_of(s);
        let differences = differences_of(s, next);
        let raised = (limit + STEP) as u32;
        assert(levels * STEP == STEP + (levels - 1) * STEP) by (nonlinear_arith);
        assert forall|k: int| 0 <= k < sums.len() implies magnitude_of(#[trigger] sums[k]) <= raised by {
            sum_is_bounded(s[2 * k], s[2 * k + 1], limit);
        }
        assert forall|k: int| 0 <= k < differences.len() implies magnitude_of(
            #[trigger] differences[k],
        ) <= raised by {
            difference_is_bounded(s[2 * k], s[2 * k + 1], limit);
            product_is_bounded(sub_of(s[2 * k], s[2 * k + 1]), next);
        }
        decomposed_is_bounded(sums, next, raised, (levels - 1) as nat);
        let front = decomposed(sums, next);
        assert forall|j: int| 0 <= j < out.len() implies magnitude_of(#[trigger] out[j]) <= top by {
            if j < front.len() {
                assert(out[j] == front[j]);
            } else {
                assert(out[j] == differences[j - front.len()]);
            }
        }
    }
}

/// The decomposition of a plane within the magnitude of 1024 stays within
/// the magnitude of two to the power 24.
pub proof fn haar2d_is_bounded(plane: Seq<u32>)
    requires
        plane.len() == NUM_PIXELS2,
        within(plane, PLANE_LIMIT),
    ensures
        haar2d_of(plane).len() == NUM_PIXELS2,
        within(haar2d_of(plane), HAAR_LIMIT),
{
    lemma2_to64();
    let middle = rows_decomposed(plane);
    assert forall|p: int| 0 <= p < NUM_PIXELS2 implies magnitude_of(#[trigger] middle[p])
        <= ROWS_LIMIT by {
        let row = row_of(plane, p / (NUM_PIXELS as int));
        assert forall|j: int| 0 <= j < row.len() implies magnitude_of(#[trigger] row[j])
            <= PLANE_LIMIT by {
            assert(row[j] == plane[(p / (NUM_PIXELS as int)) * NUM_PIXELS + j]);
        }
        decomposed_keeps_length(row, ONE, 7);
        decomposed_is_bounded(row, ONE, PLANE_LIMIT, 7);
        assert(magnitude_of(haar1d_of(row)[p % (NUM_PIXELS as int)]) <= ROWS_LIMIT);
    }
    let out = columns_decomposed(middle);
    assert forall|p: int| 0 <= p < NUM_PIXELS2 implies magnitude_of(#[trigger] out[p])
        <= HAAR_LIMIT by {
        let column = column_of(middle, p % (NUM_PIXELS as int));
        assert forall|j: int| 0 <= j < column.len() implies magnitude_of(#[trigger] column[j])
            <= ROWS_LIMIT by {
            assert(column[j] == middle[j * NUM_PIXELS + p % (NUM_PIXELS as int)]);
        }
        decomposed_keeps_length(column, ONE, 7);
        decomposed_is_bounded(column, ONE, ROWS_LIMIT, 7);
        assert(magnitude_of(haar1d_of(column)[p / (NUM_PIXELS as int)]) <= HAAR_LIMIT);
    }
}

/// The average of a decomposed plane within the magnitude of two to the
/// power 24 is finite.
pub proof fn average_is_finite(dc: u32)
    requires
        magnitude_of(dc) <= HAAR_LIMIT,
    ensures
        magnitude_of(average_of(dc)) < INFINITY,
{
    product_is_bounded(dc, DOWN);
    product_with_power_is_bounded(mul_of(dc, DOWN), 7, HAAR_LIMIT);
}

/// The signature of a picture has finite averages and finite coefficients.
pub proof fn pixels_give_finite_samples(rgb: Seq<u8>, s: SignatureView)
    requires
        rgb.len() == NUM_BYTES,
        is_signature_of_pixels(rgb, s),
    ensures
        are_finite(s.averages),
        forall|c: int, k: int|
            0 <= c < CHANNELS && 0 <= k < NUM_COEFFS ==> magnitude_of(
                (#[trigger] s.coefficients[c][k]).bits,
            ) < INFINITY,
{
    planes_are_bounded(rgb);
    let y = haar2d_of(luma_plane(rgb));
    let i = haar2d_of(first_chroma_plane(rgb));
    let q = haar2d_of(second_chroma_plane(rgb));
    haar2d_is_bounded(luma_plane(rgb));
    haar2d_is_bounded(first_chroma_plane(rgb));
    haar2d_is_bounded(second_chroma_plane(rgb));
    average_is_finite(y[0]);
    average_is_finite(i[0]);
    average_is_finite(q[0]);
    assert forall|c: int, k: int| 0 <= c < CHANNELS && 0 <= k < NUM_COEFFS implies magnitude_of(
        (#[trigger] s.coefficients[c][k]).bits,
    ) < INFINITY by {
        let plane = if c == 0 { y } else if c == 1 { i } else { q };
        crate::signature::selection_is_valid(plane, s.coefficients[c]);
        let v = s.coefficients[c][k];
        assert(v.bits == plane[v.position as int]);
    }
}

/// The averages of every stored image are finite.
pub open spec fn all_finite(iv: IndexView) -> bool {
    forall|id: int| 0 <= id < iv.averages.len() ==> are_finite(#[trigger] iv.averages[id])
}

/// Adding an image with finite averages to an index of such images gives
/// an index of such images.
pub proof fn insert_keeps_finite(iv: IndexView, path: Seq<char>, s: SignatureView)
    requires
        all_finite(iv),
        are_finite(s.averages),
    ensures
        all_finite(iv.insert(path, s)),
{
    let after = iv.insert(path, s);
    assert forall|id: int| 0 <= id < after.averages.len() implies are_finite(
        #[trigger] after.averages[id],
    ) by {
        if id < iv.averages.len() {
            assert(after.averages[id] == iv.averages[id]);
        }
    }
}

/// In an index of pictures, a query with the pixels of a stored picture
/// scores that picture at or before every stored image, and puts first an
/// image with that picture's score: the picture itself, or one stored before
/// it that ties with it.
pub proof fn picture_finds_itself(
    iv: IndexView,
    rgb: Seq<u8>,
    s: SignatureView,
    id: int,
    picks: Seq<usize>,
)
    requires
        iv.wf(),
        all_finite(iv),
        rgb.len() == NUM_BYTES,
        is_signature_of_pixels(rgb, s),
        stores(iv, id, s),
        is_leading(score_keys(iv, s), 0, RESULTS as int, picks),
    ensures
        forall|other: int|
            0 <= other < iv.len() ==> key_of(score(iv, s, id)) <= key_of(#[trigger] score(iv, s, other)),
        picks.len() > 0,
        picks[0] <= id,
        key_of(score(iv, s, picks[0] as int)) == key_of(score(iv, s, id)),
{
    pixels_give_finite_samples(rgb, s);
    assert forall|other: int| 0 <= other < iv.len() implies key_of(score(iv, s, id)) <= key_of(
        #[trigger] score(iv, s, other),
    ) by {
        assert(are_finite(iv.averages[other]));
        stored_image_scores_least(iv, s, id, other);
    }
    assert forall|other: int| 0 <= other < iv.len() implies are_finite(#[trigger] iv.averages[other]) by {}
    stored_image_ranks_first(iv, s, id, picks);
}

/// In an index of pictures, the answer to a query with the pixels of a
/// stored picture: first comes the picture or one stored before it with its
/// score, no entry scores before the picture, and the picture scores the
/// descent of its signature, which is below zero and below every baseline
/// where the signature has a coefficient that is not negligible.
pub proof fn picture_is_found(
    iv: IndexView,
    rgb: Seq<u8>,
    s: SignatureView,
    id: int,
    results: Seq<Match>,
)
    requires
        iv.wf(),
        all_finite(iv),
        rgb.len() == NUM_BYTES,
        is_signature_of_pixels(rgb, s),
        stores(iv, id, s),
        is_ranking(iv, s, results),
    ensures
        results.len() > 0,
        results[0].id <= id,
        key_of(results[0].score) == key_of(score(iv, s, id)),
        forall|j: int|
            0 <= j < results.len() ==> key_of(score(iv, s, id)) <= key_of((#[trigger] results[j]).score),
        score(iv, s, id) == descent(s, STEPS as int),
        has_significant(s) ==> key_of(score(iv, s, id)) < 0 && forall|other: int|
            0 <= other < iv.len() ==> 0 <= key_of(#[trigger] baseline(iv, s, other)),
{
    pixels_give_finite_samples(rgb, s);
    assert forall|other: int| 0 <= other < iv.len() implies are_finite(#[trigger] iv.averages[other]) by {}
    stored_image_is_found(iv, s, id, results);
}

/// In an index of pictures, the answer to a query with the pixels of a
/// picture of which no stored image shares a coefficient: every entry scores
/// its baseline, and none scores below zero.
pub proof fn picture_that_shares_nothing(
    iv: IndexView,
    rgb: Seq<u8>,
    q: SignatureView,
    results: Seq<Match>,
)
    requires
        iv.wf(),
        all_finite(iv),
        rgb.len() == NUM_BYTES,
        is_signature_of_pixels(rgb, q),
        is_ranking(iv, q, results),
        forall|id: int, c: int, k: int|
            0 <= id < iv.len() && 0 <= c < CHANNELS && 0 <= k < NUM_COEFFS ==> !(#[trigger] shares(
                iv,
                c,
                q.coefficients[c][k],
                id,
            )),
    ensures
        forall|j: int|
            0 <= j < results.len() ==> (#[trigger] results[j]).score == baseline(
                iv,
                q,
                results[j].id as int,
            ) && 0 <= key_of(results[j].score),
{
    pixels_give_finite_samples(rgb, q);
    assert forall|other: int| 0 <= other < iv.len() implies are_finite(#[trigger] iv.averages[other]) by {}
    nothing_shared_scores_baselines(iv, q, results);
}

} // verus!
