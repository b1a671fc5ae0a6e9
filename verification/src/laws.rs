//! What holds of the index and of the scores, whatever the images.

use crate::binary32::{
    add_of, adding_zero_keeps_samples, lemma_zero_has_no_units, is_infinite, is_nan, is_negative, mul_of, neg_of,
    bit_length, signed_units_of, significand_of, scale_of, sub_of,
    units_of,
};
use crate::filing::{lemma_pushed_contains};
use crate::index::{ids_of, is_ranking, marked, IndexView, Match};
use crate::order::{
    difference_is_no_later, differences_keep_order, key_of, key_of_sum, rounding_keeps_order,
    units_keep_order,
};
use crate::sample::{
    is_positive_sample, is_significant_sample, magnitude_of, INFINITY,
};
use crate::score::{
    abs_of, baseline, channel_of, coefficient_of, place_of, score, score_after, score_keys, shares,
    term, STEPS,
};
use crate::select::{is_leading, leading_starts_with_least};
use crate::signature::{valid_coefficients, SignatureView};
use crate::weights::{bin_at, weight_of, weights_are_positive, CHANNELS, NUM_COEFFS, NUM_PIXELS2, RESULTS};
use vstd::arithmetic::div_mod::lemma_fundamental_div_mod_converse;
use vstd::arithmetic::power2::{lemma_pow2_pos, pow2};
use vstd::prelude::*;

verus! {

/// The index holds the image `id` with the averages of `s`, filed at exactly
/// the positions of the coefficients of `s`, each under its sign.
pub open spec fn stores(iv: IndexView, id: int, s: SignatureView) -> bool {
    &&& 0 <= id < iv.len()
    &&& iv.averages[id] == s.averages
    &&& forall|c: int, p: int|
        0 <= c < CHANNELS && 0 <= p < NUM_PIXELS2 ==> (#[trigger] iv.positive[c][p]).contains(
            id as usize,
        ) == marked(s.coefficients[c], p, true)
    &&& forall|c: int, p: int|
        0 <= c < CHANNELS && 0 <= p < NUM_PIXELS2 ==> (#[trigger] iv.negative[c][p]).contains(
            id as usize,
        ) == marked(s.coefficients[c], p, false)
}

/// An image that has just been added is stored with the signature that it was
/// added with.
pub proof fn insert_stores(iv: IndexView, path: Seq<char>, s: SignatureView)
    requires
        iv.wf(),
        s.wf(),
        iv.len() < usize::MAX,
    ensures
        stores(iv.insert(path, s), iv.len() as int, s),
{
    let after = iv.insert(path, s);
    let id = iv.len() as usize;
    assert forall|c: int, p: int| 0 <= c < CHANNELS && 0 <= p < NUM_PIXELS2 implies (
    #[trigger] after.positive[c][p]).contains(id) == marked(s.coefficients[c], p, true) by {
        lemma_pushed_contains(iv.positive[c][p], id, id);
    }
    assert forall|c: int, p: int| 0 <= c < CHANNELS && 0 <= p < NUM_PIXELS2 implies (
    #[trigger] after.negative[c][p]).contains(id) == marked(s.coefficients[c], p, false) by {
        lemma_pushed_contains(iv.negative[c][p], id, id);
    }
}

/// Adding an image changes nothing of what is stored of the images before it.
pub proof fn insert_keeps_stored(
    iv: IndexView,
    path: Seq<char>,
    added: SignatureView,
    id: int,
    s: SignatureView,
)
    requires
        iv.wf(),
        iv.len() < usize::MAX,
        stores(iv, id, s),
    ensures
        stores(iv.insert(path, added), id, s),
{
    let after = iv.insert(path, added);
    let new = iv.len() as usize;
    assert forall|c: int, p: int| 0 <= c < CHANNELS && 0 <= p < NUM_PIXELS2 implies (
    #[trigger] after.positive[c][p]).contains(id as usize) == marked(s.coefficients[c], p, true) by {
        lemma_pushed_contains(iv.positive[c][p], new, id as usize);
    }
    assert forall|c: int, p: int| 0 <= c < CHANNELS && 0 <= p < NUM_PIXELS2 implies (
    #[trigger] after.negative[c][p]).contains(id as usize) == marked(s.coefficients[c], p, false) by {
        lemma_pushed_contains(iv.negative[c][p], new, id as usize);
    }
}

/// The three averages are finite samples.
pub open spec fn are_finite(averages: Seq<u32>) -> bool {
    forall|c: int| 0 <= c < CHANNELS ==> magnitude_of(#[trigger] averages[c]) < INFINITY
}

/// The query has a coefficient that is not negligible.
pub open spec fn has_significant(q: SignatureView) -> bool {
    exists|c: int, k: int|
        0 <= c < CHANNELS && 0 <= k < NUM_COEFFS && is_significant_sample(
            (#[trigger] q.coefficients[c][k]).bits,
        )
}

/// One of the first `t` steps takes a coefficient that is not negligible.
pub open spec fn significant_before(q: SignatureView, t: int) -> bool {
    exists|u: int| 0 <= u < t && is_significant_sample((#[trigger] coefficient_of(q, u)).bits)
}

/// Zero times a finite sample that is not negative is zero.
proof fn lemma_product_with_zero(w: u32)
    requires
        w < INFINITY,
    ensures
        mul_of(w, 0) == 0,
{
    lemma_zero_has_no_units();
    assert(units_of(w) * units_of(0) == 0) by (nonlinear_arith)
        requires
            units_of(0) == 0,
    ;
    lemma_pow2_pos(149);
    lemma_fundamental_div_mod_converse(0, pow2(149) as int, 0, 0);
    assert(bit_length(0) == 0);
}

/// The term of a channel is zero where the two averages are the same finite
/// sample.
proof fn lemma_term_of_same(c: int, x: u32)
    requires
        magnitude_of(x) < INFINITY,
    ensures
        term(c, x, x) == 0,
{
    weights_are_positive(c, 0);
    lemma_product_with_zero(weight_of(c, 0));
    let m = neg_of(x);
    assert(units_of(m) == units_of(x));
}

/// The term of a channel is a number that is not negative where the two
/// averages are finite.
proof fn lemma_term_is_no_negative(c: int, x: u32, y: u32)
    requires
        magnitude_of(x) < INFINITY,
        magnitude_of(y) < INFINITY,
    ensures
        !is_nan(term(c, x, y)),
        !is_negative(term(c, x, y)),
{
    weights_are_positive(c, 0);
    let w = weight_of(c, 0);
    key_of_sum(x, neg_of(y));
    let d = abs_of(sub_of(x, y));
    if !is_infinite(d) {
        units_keep_order(0, w);
        units_keep_order(0, d);
        let n = units_of(w) * units_of(d);
        assert(0 <= n) by (nonlinear_arith)
            requires
                n == units_of(w) * units_of(d),
                0 <= units_of(w),
                0 <= units_of(d),
        ;
        rounding_keeps_order(n, n, 149);
    }
}

/// The sum of two numbers that are not negative is a number that is not
/// negative.
proof fn lemma_sum_is_no_negative(a: u32, b: u32)
    requires
        !is_nan(a),
        !is_nan(b),
        !is_negative(a),
        !is_negative(b),
    ensures
        !is_nan(add_of(a, b)),
        !is_negative(add_of(a, b)),
{
    if !is_infinite(a) && !is_infinite(b) {
        units_keep_order(0, a);
        units_keep_order(0, b);
        let s = signed_units_of(a) + signed_units_of(b);
        if s > 0 {
            rounding_keeps_order(s, s, 0);
        }
    }
}

/// A baseline is a number that is not negative where the averages of the
/// query and of the image are finite.
pub proof fn baseline_is_no_negative(iv: IndexView, q: SignatureView, id: int)
    requires
        are_finite(q.averages),
        are_finite(iv.averages[id]),
    ensures
        !is_nan(baseline(iv, q, id)),
        0 <= key_of(baseline(iv, q, id)),
{
    let a = iv.averages[id];
    lemma_term_is_no_negative(0, q.averages[0], a[0]);
    lemma_term_is_no_negative(1, q.averages[1], a[1]);
    lemma_term_is_no_negative(2, q.averages[2], a[2]);
    let first = add_of(0, term(0, q.averages[0], a[0]));
    lemma_sum_is_no_negative(0, term(0, q.averages[0], a[0]));
    let second = add_of(first, term(1, q.averages[1], a[1]));
    lemma_sum_is_no_negative(first, term(1, q.averages[1], a[1]));
    lemma_sum_is_no_negative(second, term(2, q.averages[2], a[2]));
}

/// The baseline of an image against its own signature is zero where its
/// averages are finite.
pub proof fn baseline_of_stored(iv: IndexView, s: SignatureView, id: int)
    requires
        stores(iv, id, s),
        are_finite(s.averages),
    ensures
        baseline(iv, s, id) == 0,
{
    lemma_term_of_same(0, s.averages[0]);
    lemma_term_of_same(1, s.averages[1]);
    lemma_term_of_same(2, s.averages[2]);
    lemma_zero_has_no_units();
}

/// Step by step, an image stored with the query's own signature stays at or
/// before every other image, at or below zero, and below zero once a step
/// has taken a coefficient that is not negligible.
proof fn lemma_stored_leads(iv: IndexView, s: SignatureView, id: int, other: int, t: int)
    requires
        iv.wf(),
        s.wf(),
        stores(iv, id, s),
        0 <= other < iv.len(),
        are_finite(s.averages),
        are_finite(iv.averages[other]),
        0 <= t <= STEPS,
    ensures
        !is_nan(score_after(iv, s, id, t)),
        !is_nan(score_after(iv, s, other, t)),
        key_of(score_after(iv, s, id, t)) <= key_of(score_after(iv, s, other, t)),
        key_of(score_after(iv, s, id, t)) <= 0,
        significant_before(s, t) ==> key_of(score_after(iv, s, id, t)) < 0,
    decreases t,
{
    if t == 0 {
        baseline_of_stored(iv, s, id);
        baseline_is_no_negative(iv, s, other);
    } else {
        lemma_stored_leads(iv, s, id, other, t - 1);
        let x = score_after(iv, s, id, t - 1);
        let y = score_after(iv, s, other, t - 1);
        let c = channel_of(t - 1);
        let k = place_of(t - 1);
        let v = coefficient_of(s, t - 1);
        let w = weight_of(c, bin_at(v.position as int));
        weights_are_positive(c, bin_at(v.position as int));
        assert(valid_coefficients(s.coefficients[c]));
        assert(1 <= s.coefficients[c][k].position < NUM_PIXELS2);
        if is_significant_sample(v.bits) {
            // The image shares every coefficient of its own signature.
            let sign = is_positive_sample(v.bits);
            assert(marked(s.coefficients[c], v.position as int, sign));
            if sign {
                assert(iv.positive[c][v.position as int].contains(id as usize));
            } else {
                assert(iv.negative[c][v.position as int].contains(id as usize));
            }
            assert(shares(iv, c, v, id));
            difference_is_no_later(x, w);
            differences_keep_order(x, y, w);
            differences_keep_order(x, 0, w);
            adding_zero_keeps_samples(neg_of(w));
        } else {
            if significant_before(s, t) {
                let u = choose|u: int|
                    0 <= u < t && is_significant_sample((#[trigger] coefficient_of(s, u)).bits);
                assert(u < t - 1);
            }
        }
    }
}

/// A query with the signature of a stored image scores that image at or
/// before every stored image, where the averages concerned are finite; and
/// where the signature has a coefficient that is not negligible, the image
/// scores below zero, and so below the baseline of every stored image.
pub proof fn stored_image_scores_least(iv: IndexView, s: SignatureView, id: int, other: int)
    requires
        iv.wf(),
        s.wf(),
        stores(iv, id, s),
        0 <= other < iv.len(),
        are_finite(s.averages),
        are_finite(iv.averages[other]),
    ensures
        !is_nan(score(iv, s, id)),
        !is_nan(score(iv, s, other)),
        key_of(score(iv, s, id)) <= key_of(score(iv, s, other)),
        has_significant(s) ==> key_of(score(iv, s, id)) < 0 <= key_of(baseline(iv, s, other)),
{
    lemma_stored_leads(iv, s, id, other, STEPS as int);
    baseline_is_no_negative(iv, s, other);
    if has_significant(s) {
        let (c, k) = choose|c: int, k: int|
            0 <= c < CHANNELS && 0 <= k < NUM_COEFFS && is_significant_sample(
                (#[trigger] s.coefficients[c][k]).bits,
            );
        let u = CHANNELS * k + c;
        assert(channel_of(u) == c && place_of(u) == k);
        assert(is_significant_sample(coefficient_of(s, u).bits));
    }
}

/// A query with the signature of a stored image puts first an image with
/// that image's score: the image itself, or one stored before it that ties
/// with it; where all averages concerned are finite.
pub proof fn stored_image_ranks_first(iv: IndexView, s: SignatureView, id: int, picks: Seq<usize>)
    requires
        iv.wf(),
        s.wf(),
        stores(iv, id, s),
        are_finite(s.averages),
        forall|other: int| 0 <= other < iv.len() ==> are_finite(#[trigger] iv.averages[other]),
        is_leading(score_keys(iv, s), 0, RESULTS as int, picks),
    ensures
        picks.len() > 0,
        picks[0] <= id,
        key_of(score(iv, s, picks[0] as int)) == key_of(score(iv, s, id)),
{
    let keys = score_keys(iv, s);
    leading_starts_with_least(keys, 0, RESULTS as int, picks, id);
    let first = picks[0] as int;
    assert(0 <= first < keys.len());
    stored_image_scores_least(iv, s, id, first);
    assert(keys[id] == key_of(score(iv, s, id)));
    assert(keys[first] == key_of(score(iv, s, first)));
}

/// Step by step, two images stored with the same signature have the same
/// score.
proof fn lemma_twins_tie(iv: IndexView, s: SignatureView, a: int, b: int, q: SignatureView, t: int)
    requires
        q.wf(),
        stores(iv, a, s),
        stores(iv, b, s),
        0 <= t <= STEPS,
    ensures
        score_after(iv, q, a, t) == score_after(iv, q, b, t),
    decreases t,
{
    if t > 0 {
        lemma_twins_tie(iv, s, a, b, q, t - 1);
        let c = channel_of(t - 1);
        let k = place_of(t - 1);
        assert(valid_coefficients(q.coefficients[c]));
        assert(1 <= q.coefficients[c][k].position < NUM_PIXELS2);
        let p = q.coefficients[c][k].position as int;
        assert(iv.positive[c][p].contains(a as usize) == iv.positive[c][p].contains(b as usize));
        assert(iv.negative[c][p].contains(a as usize) == iv.negative[c][p].contains(b as usize));
    }
}

/// Two images stored with the same signature have the same score against
/// every query.
pub proof fn equal_signatures_tie(iv: IndexView, s: SignatureView, a: int, b: int, q: SignatureView)
    requires
        q.wf(),
        stores(iv, a, s),
        stores(iv, b, s),
    ensures
        score(iv, q, a) == score(iv, q, b),
{
    lemma_twins_tie(iv, s, a, b, q, STEPS as int);
}

/// Adding the same image twice gives two ids, one after the other, that are
/// stored with the same signature and tie against every query.
pub proof fn added_twice_ties(
    iv: IndexView,
    first: Seq<char>,
    second: Seq<char>,
    s: SignatureView,
    q: SignatureView,
)
    requires
        iv.wf(),
        s.wf(),
        q.wf(),
        iv.len() + 1 < usize::MAX,
    ensures
        ({
            let after = iv.insert(first, s).insert(second, s);
            &&& after.len() == iv.len() + 2
            &&& stores(after, iv.len() as int, s)
            &&& stores(after, iv.len() as int + 1, s)
            &&& score(after, q, iv.len() as int) == score(after, q, iv.len() as int + 1)
        }),
{
    let once = iv.insert(first, s);
    let after = once.insert(second, s);
    crate::index::insert_keeps_wf(iv, first, s);
    insert_stores(iv, first, s);
    insert_keeps_stored(once, second, s, iv.len() as int, s);
    insert_stores(once, second, s);
    equal_signatures_tie(after, s, iv.len() as int, iv.len() as int + 1, q);
}

/// Step by step, an image that shares no coefficient of the query keeps its
/// baseline.
proof fn lemma_score_without_shares(iv: IndexView, q: SignatureView, id: int, t: int)
    requires
        0 <= t <= STEPS,
        forall|u: int| 0 <= u < STEPS ==> !shares(iv, channel_of(u), #[trigger] coefficient_of(q, u), id),
    ensures
        score_after(iv, q, id, t) == baseline(iv, q, id),
    decreases t,
{
    if t > 0 {
        lemma_score_without_shares(iv, q, id, t - 1);
        assert(!shares(iv, channel_of(t - 1), coefficient_of(q, t - 1), id));
    }
}

/// The score of an image that shares none of the query's coefficients is its
/// baseline.
pub proof fn score_without_shares(iv: IndexView, q: SignatureView, id: int)
    requires
        forall|c: int, k: int|
            0 <= c < CHANNELS && 0 <= k < NUM_COEFFS ==> !shares(
                iv,
                c,
                #[trigger] q.coefficients[c][k],
                id,
            ),
    ensures
        score(iv, q, id) == baseline(iv, q, id),
{
    assert forall|u: int| 0 <= u < STEPS implies !shares(
        iv,
        channel_of(u),
        #[trigger] coefficient_of(q, u),
        id,
    ) by {
        assert(!shares(iv, channel_of(u), q.coefficients[channel_of(u)][place_of(u)], id));
    }
    lemma_score_without_shares(iv, q, id, STEPS as int);
}

/// Step by step, a score that starts as a number stays a number and never
/// rises.
proof fn lemma_score_never_rises(iv: IndexView, q: SignatureView, id: int, t: int)
    requires
        !is_nan(baseline(iv, q, id)),
        0 <= t <= STEPS,
    ensures
        !is_nan(score_after(iv, q, id, t)),
        key_of(score_after(iv, q, id, t)) <= key_of(baseline(iv, q, id)),
    decreases t,
{
    if t > 0 {
        lemma_score_never_rises(iv, q, id, t - 1);
        let v = coefficient_of(q, t - 1);
        weights_are_positive(channel_of(t - 1), bin_at(v.position as int));
        difference_is_no_later(
            score_after(iv, q, id, t - 1),
            weight_of(channel_of(t - 1), bin_at(v.position as int)),
        );
    }
}

/// A score is never above its baseline, where the baseline is a number.
pub proof fn score_is_at_most_baseline(iv: IndexView, q: SignatureView, id: int)
    requires
        !is_nan(baseline(iv, q, id)),
    ensures
        !is_nan(score(iv, q, id)),
        key_of(score(iv, q, id)) <= key_of(baseline(iv, q, id)),
{
    lemma_score_never_rises(iv, q, id, STEPS as int);
}

/// Within a channel the weight does not rise from a bin to a later one, but
/// for the pairs of bins named in `requires`.
pub proof fn weight_decay(c: int, b1: int, b2: int)
    requires
        0 <= c < CHANNELS,
        0 <= b1 <= b2 < 6,
        !(c == 0 && b1 == 1 && b2 == 2),
        !(c == 1 && b1 == 2 && b2 == 3),
        !(c == 2 && b1 == 1 && b2 == 2),
        !(c == 2 && b1 == 3 && b2 == 4),
        !(c == 2 && b1 == 3 && b2 == 5),
        !(c == 2 && b1 == 4 && b2 == 5),
    ensures
        key_of(weight_of(c, b1)) >= key_of(weight_of(c, b2)),
{
}

/// In every channel bin 0 has the largest weight.
pub proof fn weight_is_largest_at_first_bin(c: int, b: int)
    requires
        0 <= c < CHANNELS,
        0 <= b < 6,
    ensures
        key_of(weight_of(c, 0)) >= key_of(weight_of(c, b)),
{
}

/// What the first `t` steps take off the score of an image that shares
/// every coefficient of the query: from zero, the weight, at the bin of its
/// position, of each coefficient so far that is not negligible.
pub open spec fn descent(q: SignatureView, t: int) -> u32
    decreases t,
{
    if t <= 0 {
        0
    } else {
        let before = descent(q, t - 1);
        let v = coefficient_of(q, t - 1);
        if is_significant_sample(v.bits) {
            sub_of(before, weight_of(channel_of(t - 1), bin_at(v.position as int)))
        } else {
            before
        }
    }
}

/// The sum of the weights, each at the bin of its position, of the
/// coefficients of the first `t` steps that are not negligible.
pub open spec fn total(q: SignatureView, t: int) -> u32
    decreases t,
{
    if t <= 0 {
        0
    } else {
        let before = total(q, t - 1);
        let v = coefficient_of(q, t - 1);
        if is_significant_sample(v.bits) {
            add_of(before, weight_of(channel_of(t - 1), bin_at(v.position as int)))
        } else {
            before
        }
    }
}

/// Taking a finite sample above zero from the negative of a number that is
/// not negative gives the negative of their sum, unless the number is zero
/// with its sign set.
proof fn lemma_difference_of_negative(x: u32, w: u32)
    requires
        !is_nan(x),
        !is_negative(x),
        0 < w < INFINITY,
    ensures
        !is_nan(add_of(x, w)),
        !is_negative(add_of(x, w)),
        0 < magnitude_of(add_of(x, w)),
        sub_of(if x == 0 { 0u32 } else { neg_of(x) }, w) == neg_of(add_of(x, w)),
{
    if !is_infinite(x) {
        units_keep_order(0, x);
        units_keep_order(0, w);
        lemma_zero_has_no_units();
        lemma_pow2_pos(scale_of(w));
        let u = units_of(w);
        assert(u > 0) by (nonlinear_arith)
            requires
                u == significand_of(w) * pow2(scale_of(w)),
                significand_of(w) > 0,
                pow2(scale_of(w)) > 0,
        ;
        let n = units_of(x) + u;
        rounding_keeps_order(u, n, 0);
        crate::binary32::rounding_keeps_samples(w);
    }
}

/// Step by step, the descent is the negative of the total, and zero while
/// the total is zero.
proof fn lemma_descent_is_negated_total(q: SignatureView, t: int)
    requires
        0 <= t <= STEPS,
    ensures
        !is_nan(total(q, t)),
        !is_negative(total(q, t)),
        significant_before(q, t) ==> 0 < magnitude_of(total(q, t)) && descent(q, t) == neg_of(
            total(q, t),
        ),
        !significant_before(q, t) ==> total(q, t) == 0 && descent(q, t) == 0,
    decreases t,
{
    if t > 0 {
        lemma_descent_is_negated_total(q, t - 1);
        let v = coefficient_of(q, t - 1);
        if is_significant_sample(v.bits) {
            let w = weight_of(channel_of(t - 1), bin_at(v.position as int));
            weights_are_positive(channel_of(t - 1), bin_at(v.position as int));
            lemma_difference_of_negative(total(q, t - 1), w);
            assert(significant_before(q, t));
        } else {
            if significant_before(q, t) {
                let u = choose|u: int|
                    0 <= u < t && is_significant_sample((#[trigger] coefficient_of(q, u)).bits);
                assert(u < t - 1);
            }
        }
    }
}

/// The descent of a query is the negative of the sum of the weights of its
/// coefficients that are not negligible, where it has one, and zero where it
/// has none.
pub proof fn descent_is_negated_total(q: SignatureView)
    ensures
        has_significant(q) ==> 0 < magnitude_of(total(q, STEPS as int)) && descent(q, STEPS as int)
            == neg_of(total(q, STEPS as int)),
        !has_significant(q) ==> descent(q, STEPS as int) == 0,
{
    lemma_descent_is_negated_total(q, STEPS as int);
    if has_significant(q) {
        let (c, k) = choose|c: int, k: int|
            0 <= c < CHANNELS && 0 <= k < NUM_COEFFS && is_significant_sample(
                (#[trigger] q.coefficients[c][k]).bits,
            );
        let u = CHANNELS * k + c;
        assert(channel_of(u) == c && place_of(u) == k);
        assert(is_significant_sample(coefficient_of(q, u).bits));
    }
    if significant_before(q, STEPS as int) {
        let u = choose|u: int|
            0 <= u < STEPS && is_significant_sample((#[trigger] coefficient_of(q, u)).bits);
        assert(is_significant_sample(q.coefficients[channel_of(u)][place_of(u)].bits));
    }
}

/// Step by step, the score of an image against its own signature is the
/// descent of that signature.
proof fn lemma_stored_descends(iv: IndexView, s: SignatureView, id: int, t: int)
    requires
        s.wf(),
        stores(iv, id, s),
        are_finite(s.averages),
        0 <= t <= STEPS,
    ensures
        score_after(iv, s, id, t) == descent(s, t),
    decreases t,
{
    if t == 0 {
        baseline_of_stored(iv, s, id);
    } else {
        lemma_stored_descends(iv, s, id, t - 1);
        let c = channel_of(t - 1);
        let k = place_of(t - 1);
        let v = coefficient_of(s, t - 1);
        assert(valid_coefficients(s.coefficients[c]));
        assert(1 <= s.coefficients[c][k].position < NUM_PIXELS2);
        if is_significant_sample(v.bits) {
            let sign = is_positive_sample(v.bits);
            assert(marked(s.coefficients[c], v.position as int, sign));
            if sign {
                assert(iv.positive[c][v.position as int].contains(id as usize));
            } else {
                assert(iv.negative[c][v.position as int].contains(id as usize));
            }
        }
    }
}

/// The score of an image against its own signature is the descent of that
/// signature: zero, less the weight of every coefficient that is not
/// negligible; where the averages of the signature are finite.
pub proof fn stored_image_scores_its_weights(iv: IndexView, s: SignatureView, id: int)
    requires
        s.wf(),
        stores(iv, id, s),
        are_finite(s.averages),
    ensures
        score(iv, s, id) == descent(s, STEPS as int),
{
    lemma_stored_descends(iv, s, id, STEPS as int);
}

/// The answer to a query with the signature of a stored image, where all
/// averages concerned are finite: first comes the image or one stored before
/// it with its score, no entry scores before the image, and the image
/// scores the descent of its signature.
pub proof fn stored_image_is_found(iv: IndexView, s: SignatureView, id: int, results: Seq<Match>)
    requires
        iv.wf(),
        s.wf(),
        stores(iv, id, s),
        are_finite(s.averages),
        forall|other: int| 0 <= other < iv.len() ==> are_finite(#[trigger] iv.averages[other]),
        is_ranking(iv, s, results),
    ensures
        results.len() > 0,
        results[0].id <= id,
        key_of(results[0].score) == key_of(score(iv, s, id)),
        forall|j: int|
            0 <= j < results.len() ==> key_of(score(iv, s, id)) <= key_of((#[trigger] results[j]).score),
        score(iv, s, id) == descent(s, STEPS as int),
        has_significant(s) ==> key_of(score(iv, s, id)) < 0 && forall|other: int|
            0 <= other < iv.len() ==> 0 <= key_of(#[trigger] baseline(iv, s, other)),
{
    let picks = ids_of(results);
    stored_image_ranks_first(iv, s, id, picks);
    stored_image_scores_its_weights(iv, s, id);
    assert(picks[0] == results[0].id);
    assert forall|j: int| 0 <= j < results.len() implies key_of(score(iv, s, id)) <= key_of(
        (#[trigger] results[j]).score,
    ) by {
        stored_image_scores_least(iv, s, id, results[j].id as int);
    }
    if has_significant(s) {
        assert forall|other: int| 0 <= other < iv.len() implies 0 <= key_of(
            #[trigger] baseline(iv, s, other),
        ) by {
            stored_image_scores_least(iv, s, id, other);
        }
        stored_image_scores_least(iv, s, id, id);
    }
}

/// The answer to a query of which no stored image shares a coefficient:
/// every entry scores its baseline, which is not negative where the averages
/// concerned are finite.
pub proof fn nothing_shared_scores_baselines(iv: IndexView, q: SignatureView, results: Seq<Match>)
    requires
        iv.wf(),
        is_ranking(iv, q, results),
        forall|id: int, c: int, k: int|
            0 <= id < iv.len() && 0 <= c < CHANNELS && 0 <= k < NUM_COEFFS ==> !(#[trigger] shares(
                iv,
                c,
                q.coefficients[c][k],
                id,
            )),
    ensures
        forall|j: int|
            0 <= j < results.len() ==> (#[trigger] results[j]).score == baseline(
                iv,
                q,
                results[j].id as int,
            ),
        are_finite(q.averages) && (forall|other: int|
            0 <= other < iv.len() ==> are_finite(#[trigger] iv.averages[other])) ==> forall|j: int|
            0 <= j < results.len() ==> 0 <= key_of((#[trigger] results[j]).score),
{
    assert forall|j: int| 0 <= j < results.len() implies (#[trigger] results[j]).score == baseline(
        iv,
        q,
        results[j].id as int,
    ) by {
        let id = results[j].id as int;
        assert forall|c: int, k: int| 0 <= c < CHANNELS && 0 <= k < NUM_COEFFS implies !shares(
            iv,
            c,
            #[trigger] q.coefficients[c][k],
            id,
        ) by {
            assert(!shares(iv, c, q.coefficients[c][k], id));
        }
        score_without_shares(iv, q, id);
    }
    if are_finite(q.averages) && (forall|other: int|
        0 <= other < iv.len() ==> are_finite(#[trigger] iv.averages[other])) {
        assert forall|j: int| 0 <= j < results.len() implies 0 <= key_of(
            (#[trigger] results[j]).score,
        ) by {
            baseline_is_no_negative(iv, q, results[j].id as int);
        }
    }
}

} // verus!
