//! The score of a stored image against a query signature.
//!
//! A score starts as the distance between the averages of the query and of
//! the image, weighted by channel, and loses the weight of every coefficient
//! of the query that the image shares. Lower is more similar. Scores are
//! samples, and every step is rounded as binary32 arithmetic rounds it.

use crate::binary32::{add_of, mul_of, sub_of};
use crate::index::IndexView;
use crate::order::key_of;
use crate::sample::{is_positive_sample, is_significant_sample, magnitude_of, Coefficient};
use crate::signature::SignatureView;
use crate::weights::{bin_at, weight_of, CHANNELS};
use vstd::prelude::*;

verus! {

/// The number of steps in which the coefficients of a query are taken into
/// a score: one for each coefficient of each channel.
pub const STEPS: usize = 120;

/// The absolute value of a sample.
pub open spec fn abs_of(a: u32) -> u32 {
    magnitude_of(a) as u32
}

/// What channel `c` adds to a baseline: the distance between the averages
/// `x` and `y`, times the weight of the channel at bin 0.
pub open spec fn term(c: int, x: u32, y: u32) -> u32 {
    mul_of(weight_of(c, 0), abs_of(sub_of(x, y)))
}

/// The part of a score that compares averages: the terms of the three
/// channels, added to zero one after the other.
pub open spec fn baseline(iv: IndexView, q: SignatureView, id: int) -> u32 {
    add_of(
        add_of(
            add_of(0, term(0, q.averages[0], iv.averages[id][0])),
            term(1, q.averages[1], iv.averages[id][1]),
        ),
        term(2, q.averages[2], iv.averages[id][2]),
    )
}

/// The image `id` shares the query coefficient `v` of channel `c`: the
/// coefficient is not negligible, and the image is filed at its position under
/// its sign.
pub open spec fn shares(iv: IndexView, c: int, v: Coefficient, id: int) -> bool {
    is_significant_sample(v.bits) && if is_positive_sample(v.bits) {
        iv.positive[c][v.position as int].contains(id as usize)
    } else {
        iv.negative[c][v.position as int].contains(id as usize)
    }
}

/// The channel of step `t`: the steps go through the channels in turn.
pub open spec fn channel_of(t: int) -> int {
    t % (CHANNELS as int)
}

/// The coefficient of step `t` in the list of its channel.
pub open spec fn place_of(t: int) -> int {
    t / (CHANNELS as int)
}

/// The coefficient of the query that step `t` takes into the score.
pub open spec fn coefficient_of(q: SignatureView, t: int) -> Coefficient {
    q.coefficients[channel_of(t)][place_of(t)]
}

/// The score of the image `id` after the first `t` steps: the baseline, less
/// the weight, at the bin of its position, of each coefficient so far that
/// the image shares.
pub open spec fn score_after(iv: IndexView, q: SignatureView, id: int, t: int) -> u32
    decreases t,
{
    if t <= 0 {
        baseline(iv, q, id)
    } else {
        let before = score_after(iv, q, id, t - 1);
        let v = coefficient_of(q, t - 1);
        if shares(iv, channel_of(t - 1), v, id) {
            sub_of(before, weight_of(channel_of(t - 1), bin_at(v.position as int)))
        } else {
            before
        }
    }
}

/// The score of the image `id` against the query `q`.
pub open spec fn score(iv: IndexView, q: SignatureView, id: int) -> u32 {
    score_after(iv, q, id, STEPS as int)
}

/// The places of the scores of all stored images in the order of values, by
/// id.
pub open spec fn score_keys(iv: IndexView, q: SignatureView) -> Seq<i64> {
    Seq::new(iv.paths.len(), |id: int| key_of(score(iv, q, id)) as i64)
}

} // verus!
