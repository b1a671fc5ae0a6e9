//! The index: the stored images, and for each channel, grid position and sign
//! the list of images that have a coefficient there.

use crate::bounds::{all_finite, insert_keeps_finite, pixels_give_finite_samples};
use crate::decode::{blur, decode, resize};
use crate::filing::{is_filing, lemma_insert_keeps_filing};
use crate::laws::are_finite;
use crate::image::{extract, is_signature_of_pixels, NUM_BYTES};
use crate::sample::{is_positive, is_positive_sample, is_significant, Coefficient};
use crate::binary32::{minus, plus, sub_of, times};
use crate::order::{key, key_of};
use crate::sample::magnitude;
use crate::score::{
    baseline, channel_of, coefficient_of, place_of, score, score_after, score_keys, };
use crate::select::{is_leading, leading};
use crate::signature::{valid_coefficients, Signature, SignatureError, SignatureView};
use crate::weights::{bin, weight, CHANNELS, NUM_COEFFS, NUM_PIXELS, NUM_PIXELS2, RESULTS};
use vstd::prelude::*;

verus! {

/// The stored images and the inverted index over their coefficients.
///
/// An image is known by its id, the number of images stored before it.
#[derive(Debug)]
pub struct Index {
    paths: Vec<String>,
    averages: Vec<Vec<u32>>,
    positive: Vec<Vec<Vec<usize>>>,
    negative: Vec<Vec<Vec<usize>>>,
}

/// The mathematical content of an [`Index`].
pub struct IndexView {
    /// The identifier of each image, by id.
    pub paths: Seq<Seq<char>>,
    /// The channel averages of each image, by id.
    pub averages: Seq<Seq<u32>>,
    /// By channel and grid position, the ids of the images with a positive
    /// coefficient there.
    pub positive: Seq<Seq<Seq<usize>>>,
    /// By channel and grid position, the ids of the images with a coefficient
    /// there that is not positive.
    pub negative: Seq<Seq<Seq<usize>>>,
}

/// The list holds ids below `n` in strictly ascending order.
pub open spec fn is_id_list(list: Seq<usize>, n: int) -> bool {
    &&& forall|i: int| 0 <= i < list.len() ==> (#[trigger] list[i]) < n
    &&& forall|i: int, j: int| 0 <= i < j < list.len() ==> (#[trigger] list[i]) < (#[trigger] list[j])
}

/// One list of ids below `n` for each grid position of each channel.
pub open spec fn is_id_table(table: Seq<Seq<Seq<usize>>>, n: int) -> bool {
    &&& table.len() == CHANNELS
    &&& forall|c: int| 0 <= c < CHANNELS ==> (#[trigger] table[c]).len() == NUM_PIXELS2
    &&& forall|c: int, p: int|
        0 <= c < CHANNELS && 0 <= p < NUM_PIXELS2 ==> is_id_list(#[trigger] table[c][p], n)
}

/// `coeffs` has a coefficient at position `p` whose sample is positive
/// (`positive`) or is not (`!positive`).
pub open spec fn marked(coeffs: Seq<Coefficient>, p: int, positive: bool) -> bool {
    exists|k: int|
        0 <= k < coeffs.len() && (#[trigger] coeffs[k]).position == p && is_positive_sample(
            coeffs[k].bits,
        ) == positive
}

/// The table after the image `id` with the coefficients of `s` has been filed
/// under the sign `positive`.
pub open spec fn filed(
    table: Seq<Seq<Seq<usize>>>,
    s: SignatureView,
    id: usize,
    positive: bool,
) -> Seq<Seq<Seq<usize>>> {
    Seq::new(
        CHANNELS as nat,
        |c: int|
            Seq::new(
                NUM_PIXELS2 as nat,
                |p: int|
                    if marked(s.coefficients[c], p, positive) {
                        table[c][p].push(id)
                    } else {
                        table[c][p]
                    },
            ),
    )
}

impl IndexView {
    /// The number of stored images.
    pub open spec fn len(self) -> nat {
        self.paths.len()
    }

    /// Every image has its three averages, every list of the two tables
    /// holds ids of stored images in ascending order, and the images are
    /// filed consistently.
    pub open spec fn wf(self) -> bool {
        &&& self.paths.len() <= usize::MAX
        &&& self.averages.len() == self.paths.len()
        &&& forall|id: int|
            0 <= id < self.averages.len() ==> (#[trigger] self.averages[id]).len() == CHANNELS
        &&& is_id_table(self.positive, self.paths.len() as int)
        &&& is_id_table(self.negative, self.paths.len() as int)
        &&& is_filing(self)
    }

    /// The index with no image.
    pub open spec fn empty() -> IndexView {
        IndexView {
            paths: Seq::empty(),
            averages: Seq::empty(),
            positive: Seq::new(
                CHANNELS as nat,
                |c: int| Seq::new(NUM_PIXELS2 as nat, |p: int| Seq::empty()),
            ),
            negative: Seq::new(
                CHANNELS as nat,
                |c: int| Seq::new(NUM_PIXELS2 as nat, |p: int| Seq::empty()),
            ),
        }
    }

    /// The index after the image `path` with signature `s` has been added: it
    /// gets the next id, and that id is appended to the list of each of its
    /// coefficients, by sign.
    pub open spec fn insert(self, path: Seq<char>, s: SignatureView) -> IndexView {
        let id = self.paths.len() as usize;
        IndexView {
            paths: self.paths.push(path),
            averages: self.averages.push(s.averages),
            positive: filed(self.positive, s, id, true),
            negative: filed(self.negative, s, id, false),
        }
    }
}

/// The content of a table of lists.
pub open spec fn table_view(table: Seq<Vec<Vec<usize>>>) -> Seq<Seq<Seq<usize>>> {
    Seq::new(table.len(), |c: int| Seq::new(table[c]@.len(), |p: int| table[c]@[p]@))
}

impl View for Index {
    type V = IndexView;

    closed spec fn view(&self) -> IndexView {
        parts_view(self.paths@, self.averages@, self.positive@, self.negative@)
    }
}

/// The content of an index, from the content of its four parts.
pub open spec fn parts_view(
    paths: Seq<String>,
    averages: Seq<Vec<u32>>,
    positive: Seq<Vec<Vec<usize>>>,
    negative: Seq<Vec<Vec<usize>>>,
) -> IndexView {
    IndexView {
        paths: Seq::new(paths.len(), |id: int| paths[id]@),
        averages: Seq::new(averages.len(), |id: int| averages[id]@),
        positive: table_view(positive),
        negative: table_view(negative),
    }
}

/// `coeffs` has, among its first `n` entries, a coefficient at position `p`
/// with the given sign.
pub open spec fn marked_within(coeffs: Seq<Coefficient>, n: int, p: int, positive: bool) -> bool {
    exists|k: int|
        0 <= k < n && (#[trigger] coeffs[k]).position == p && is_positive_sample(coeffs[k].bits)
            == positive
}

/// Adding an image with a well-formed signature keeps the index well formed.
pub proof fn insert_keeps_wf(iv: IndexView, path: Seq<char>, s: SignatureView)
    requires
        iv.wf(),
        s.wf(),
        iv.len() < usize::MAX,
    ensures
        iv.insert(path, s).wf(),
{
    let after = iv.insert(path, s);
    let n = iv.paths.len() as int;
    assert forall|id: int| 0 <= id < after.averages.len() implies (#[trigger] after.averages[id]).len()
        == CHANNELS by {
        if id < n {
            assert(after.averages[id] == iv.averages[id]);
        }
    }
    lemma_filed_is_table(iv.positive, s, n, true);
    lemma_filed_is_table(iv.negative, s, n, false);
    lemma_insert_keeps_filing(iv, path, s);
}

/// Filing the next id keeps a table of id lists one.
proof fn lemma_filed_is_table(table: Seq<Seq<Seq<usize>>>, s: SignatureView, n: int, positive: bool)
    requires
        is_id_table(table, n),
        0 <= n < usize::MAX,
    ensures
        is_id_table(filed(table, s, n as usize, positive), n + 1),
{
    let after = filed(table, s, n as usize, positive);
    assert forall|c: int, p: int| 0 <= c < CHANNELS && 0 <= p < NUM_PIXELS2 implies is_id_list(
        #[trigger] after[c][p],
        n + 1,
    ) by {
        assert(is_id_list(table[c][p], n));
    }
}

/// Appends `id` to the list at the position of each coefficient of channel
/// `c`: in `positive` where its sample is positive, in `negative` where not.
fn file_channel(
    positive: &mut Vec<Vec<usize>>,
    negative: &mut Vec<Vec<usize>>,
    sig: &Signature,
    c: usize,
    id: usize,
)
    requires
        c < CHANNELS,
        old(positive).len() == NUM_PIXELS2,
        old(negative).len() == NUM_PIXELS2,
    ensures
        final(positive).len() == NUM_PIXELS2,
        final(negative).len() == NUM_PIXELS2,
        forall|p: int|
            0 <= p < NUM_PIXELS2 ==> (#[trigger] final(positive)[p])@ == if marked(
                sig@.coefficients[c as int],
                p,
                true,
            ) {
                old(positive)[p]@.push(id)
            } else {
                old(positive)[p]@
            },
        forall|p: int|
            0 <= p < NUM_PIXELS2 ==> (#[trigger] final(negative)[p])@ == if marked(
                sig@.coefficients[c as int],
                p,
                false,
            ) {
                old(negative)[p]@.push(id)
            } else {
                old(negative)[p]@
            },
{
    proof {
        use_type_invariant(sig);
    }
    let ghost coeffs = sig@.coefficients[c as int];
    assert(valid_coefficients(coeffs));
    let mut k: usize = 0;
    while k < NUM_COEFFS
        invariant
            c < CHANNELS,
            k <= NUM_COEFFS,
            coeffs == sig@.coefficients[c as int],
            valid_coefficients(coeffs),
            positive.len() == NUM_PIXELS2,
            negative.len() == NUM_PIXELS2,
            forall|p: int|
                0 <= p < NUM_PIXELS2 ==> (#[trigger] positive[p])@ == if marked_within(
                    coeffs,
                    k as int,
                    p,
                    true,
                ) {
                    old(positive)[p]@.push(id)
                } else {
                    old(positive)[p]@
                },
            forall|p: int|
                0 <= p < NUM_PIXELS2 ==> (#[trigger] negative[p])@ == if marked_within(
                    coeffs,
                    k as int,
                    p,
                    false,
                ) {
                    old(negative)[p]@.push(id)
                } else {
                    old(negative)[p]@
                },
        decreases NUM_COEFFS - k,
    {
        let v = sig.coefficient_at(c, k);
        let at = v.position as usize;
        let ghost sign = is_positive_sample(v.bits);
        assert(coeffs[k as int] == v);
        assert(1 <= coeffs[k as int].position < NUM_PIXELS2);
        assert forall|b: bool| !marked_within(coeffs, k as int, at as int, b) by {
            if marked_within(coeffs, k as int, at as int, b) {
                let j = choose|j: int|
                    0 <= j < k && (#[trigger] coeffs[j]).position == at && is_positive_sample(
                        coeffs[j].bits,
                    ) == b;
                assert(coeffs[j].position != coeffs[k as int].position);
            }
        }
        assert(!marked_within(coeffs, k as int, at as int, true));
        assert(!marked_within(coeffs, k as int, at as int, false));
        if is_positive(v.bits) {
            positive[at].push(id);
        } else {
            negative[at].push(id);
        }
        proof {
            assert forall|p: int, b: bool| 0 <= p < NUM_PIXELS2 implies marked_within(
                coeffs,
                k + 1,
                p,
                b,
            ) == (marked_within(coeffs, k as int, p, b) || (p == at && b == sign)) by {
                if marked_within(coeffs, k as int, p, b) {
                    let j = choose|j: int|
                        0 <= j < k && (#[trigger] coeffs[j]).position == p && is_positive_sample(
                            coeffs[j].bits,
                        ) == b;
                    assert(0 <= j < k + 1);
                }
                if p == at && b == sign {
                    assert(coeffs[k as int].position == p);
                }
                if marked_within(coeffs, k + 1, p, b) {
                    let j = choose|j: int|
                        0 <= j < k + 1 && (#[trigger] coeffs[j]).position == p
                            && is_positive_sample(coeffs[j].bits) == b;
                    assert(j < k || j == k);
                }
            }
        }
        k += 1;
    }
    proof {
        assert forall|p: int, b: bool| marked_within(coeffs, NUM_COEFFS as int, p, b) == marked(
            coeffs,
            p,
            b,
        ) by {
            if marked(coeffs, p, b) {
                let j = choose|j: int|
                    0 <= j < coeffs.len() && (#[trigger] coeffs[j]).position == p
                        && is_positive_sample(coeffs[j].bits) == b;
                assert(0 <= j < NUM_COEFFS);
            }
        }
    }
}

/// Makes a table with an empty list for each grid position of each channel.
fn empty_table() -> (table: Vec<Vec<Vec<usize>>>)
    ensures
        table_view(table@) == IndexView::empty().positive,
{
    let mut table: Vec<Vec<Vec<usize>>> = Vec::new();
    let mut c: usize = 0;
    while c < CHANNELS
        invariant
            c <= CHANNELS,
            table.len() == c,
            forall|d: int| 0 <= d < c ==> (#[trigger] table[d]).len() == NUM_PIXELS2,
            forall|d: int, p: int|
                0 <= d < c && 0 <= p < NUM_PIXELS2 ==> (#[trigger] table[d][p]).len() == 0,
        decreases CHANNELS - c,
    {
        let mut lists: Vec<Vec<usize>> = Vec::new();
        let mut p: usize = 0;
        while p < NUM_PIXELS2
            invariant
                p <= NUM_PIXELS2,
                lists.len() == p,
                forall|q: int| 0 <= q < p ==> (#[trigger] lists[q]).len() == 0,
            decreases NUM_PIXELS2 - p,
        {
            lists.push(Vec::new());
            p += 1;
        }
        table.push(lists);
        c += 1;
    }
    proof {
        let target = IndexView::empty().positive;
        let got = table_view(table@);
        assert(got.len() == target.len());
        assert forall|d: int| 0 <= d < got.len() implies got[d] == target[d] by {
            assert(got[d].len() == target[d].len());
            assert forall|p: int| 0 <= p < got[d].len() implies got[d][p] == target[d][p] by {
                assert(table[d][p].len() == 0);
                assert(got[d][p] =~= target[d][p]);
            }
            assert(got[d] =~= target[d]);
        }
        assert(got =~= target);
    }
    table
}

/// Adds an image to the four parts of an index.
fn append(
    paths: &mut Vec<String>,
    averages: &mut Vec<Vec<u32>>,
    positive: &mut Vec<Vec<Vec<usize>>>,
    negative: &mut Vec<Vec<Vec<usize>>>,
    path: &str,
    sig: &Signature,
)
    requires
        parts_view(old(paths)@, old(averages)@, old(positive)@, old(negative)@).wf(),
    ensures
        parts_view(final(paths)@, final(averages)@, final(positive)@, final(negative)@)
            == parts_view(old(paths)@, old(averages)@, old(positive)@, old(negative)@).insert(
            path@,
            sig@,
        ),
        old(paths).len() < usize::MAX,
{
    proof {
        use_type_invariant(sig);
    }
    let ghost before = parts_view(paths@, averages@, positive@, negative@);
    let ghost target = before.insert(path@, sig@);
    let id = paths.len();
    paths.push(path.to_owned());
    assert(paths.len() == paths@.len());
    let mut entry: Vec<u32> = Vec::new();
    entry.push(sig.average_at(0));
    entry.push(sig.average_at(1));
    entry.push(sig.average_at(2));
    averages.push(entry);
    proof {
        assert forall|d: int| 0 <= d < CHANNELS implies (#[trigger] positive[d]).len()
            == NUM_PIXELS2 by {
            assert(before.positive[d].len() == NUM_PIXELS2);
        }
        assert forall|d: int| 0 <= d < CHANNELS implies (#[trigger] negative[d]).len()
            == NUM_PIXELS2 by {
            assert(before.negative[d].len() == NUM_PIXELS2);
        }
    }
    let mut c: usize = 0;
    while c < CHANNELS
        invariant
            c <= CHANNELS,
            before.wf(),
            before.positive == table_view(old(positive)@),
            before.negative == table_view(old(negative)@),
            positive.len() == CHANNELS,
            negative.len() == CHANNELS,
            forall|d: int| 0 <= d < CHANNELS ==> (#[trigger] positive[d]).len() == NUM_PIXELS2,
            forall|d: int| 0 <= d < CHANNELS ==> (#[trigger] negative[d]).len() == NUM_PIXELS2,
            forall|d: int| c <= d < CHANNELS ==> (#[trigger] positive[d]) == old(positive)[d],
            forall|d: int| c <= d < CHANNELS ==> (#[trigger] negative[d]) == old(negative)[d],
            forall|d: int, p: int|
                0 <= d < c && 0 <= p < NUM_PIXELS2 ==> (#[trigger] positive[d][p])@ == filed(
                    before.positive,
                    sig@,
                    id,
                    true,
                )[d][p],
            forall|d: int, p: int|
                0 <= d < c && 0 <= p < NUM_PIXELS2 ==> (#[trigger] negative[d][p])@ == filed(
                    before.negative,
                    sig@,
                    id,
                    false,
                )[d][p],
        decreases CHANNELS - c,
    {
        assert(before.positive[c as int].len() == NUM_PIXELS2);
        assert(before.negative[c as int].len() == NUM_PIXELS2);
        file_channel(&mut positive[c], &mut negative[c], sig, c, id);
        proof {
            assert forall|p: int| 0 <= p < NUM_PIXELS2 implies (#[trigger] positive[c as int][p])@
                == filed(before.positive, sig@, id, true)[c as int][p] by {
                assert(before.positive[c as int][p] == old(positive)[c as int][p]@);
            }
            assert forall|p: int| 0 <= p < NUM_PIXELS2 implies (#[trigger] negative[c as int][p])@
                == filed(before.negative, sig@, id, false)[c as int][p] by {
                assert(before.negative[c as int][p] == old(negative)[c as int][p]@);
            }
        }
        c += 1;
    }
    proof {
        let after = parts_view(paths@, averages@, positive@, negative@);
        assert(after.paths =~= target.paths);
        assert(after.averages.len() == target.averages.len());
        assert forall|i: int| 0 <= i < after.averages.len() implies after.averages[i]
            == target.averages[i] by {
            if i < before.averages.len() {
                assert(after.averages[i] =~= before.averages[i]);
            } else {
                assert(after.averages[i] =~= sig@.averages);
            }
        }
        assert(after.averages =~= target.averages);
        assert forall|d: int| 0 <= d < CHANNELS implies after.positive[d] == target.positive[d] by {
            assert(positive[d].len() == NUM_PIXELS2);
            assert forall|p: int| 0 <= p < NUM_PIXELS2 implies after.positive[d][p]
                == target.positive[d][p] by {
                assert(positive[d][p]@ == filed(before.positive, sig@, id, true)[d][p]);
            }
            assert(after.positive[d] =~= target.positive[d]);
        }
        assert(after.positive =~= target.positive);
        assert forall|d: int| 0 <= d < CHANNELS implies after.negative[d] == target.negative[d] by {
            assert(negative[d].len() == NUM_PIXELS2);
            assert forall|p: int| 0 <= p < NUM_PIXELS2 implies after.negative[d][p]
                == target.negative[d][p] by {
                assert(negative[d][p]@ == filed(before.negative, sig@, id, false)[d][p]);
            }
            assert(after.negative[d] =~= target.negative[d]);
        }
        assert(after.negative =~= target.negative);
    }
}

/// One entry of the result of a query.
#[derive(Clone, Debug)]
pub struct Match {
    /// The id of the image.
    pub id: usize,
    /// The identifier under which the image was added.
    pub path: String,
    /// The score of the image against the query, a sample; lower is more
    /// similar.
    pub score: u32,
}

/// `results` is the answer to the query `q`: the `RESULTS` stored images of
/// lowest score, or all where they are fewer, in ascending order of score and
/// images of equal score in ascending order of id, each with its identifier
/// and its score.
pub open spec fn is_ranking(iv: IndexView, q: SignatureView, results: Seq<Match>) -> bool {
    &&& is_leading(score_keys(iv, q), 0, RESULTS as int, ids_of(results))
    &&& forall|i: int|
        0 <= i < results.len() ==> (#[trigger] results[i]).id < iv.paths.len() && results[i].path@
            == iv.paths[results[i].id as int] && results[i].score == score(
            iv,
            q,
            results[i].id as int,
        )
}

/// The ids of a list of entries.
pub open spec fn ids_of(results: Seq<Match>) -> Seq<usize> {
    Seq::new(results.len(), |i: int| results[i].id)
}

/// Takes `w` off the score of every image of `list`.
fn credit(scores: &mut Vec<u32>, list: &Vec<usize>, w: u32)
    requires
        is_id_list(list@, old(scores).len() as int),
    ensures
        final(scores).len() == old(scores).len(),
        forall|id: int|
            0 <= id < old(scores).len() ==> #[trigger] final(scores)[id] == if list@.contains(
                id as usize,
            ) {
                sub_of(old(scores)[id], w)
            } else {
                old(scores)[id]
            },
{
    let mut t: usize = 0;
    while t < list.len()
        invariant
            t <= list.len(),
            scores.len() == old(scores).len(),
            is_id_list(list@, scores.len() as int),
            forall|id: int|
                0 <= id < scores.len() ==> #[trigger] scores[id] == if list@.take(t as int).contains(
                    id as usize,
                ) {
                    sub_of(old(scores)[id], w)
                } else {
                    old(scores)[id]
                },
        decreases list.len() - t,
    {
        let id = list[t];
        let ghost seen = list@.take(t as int);
        let ghost next = list@.take(t + 1);
        proof {
            // The list ascends, so `id` has not been seen, and what has been
            // seen stays seen.
            if seen.contains(id) {
                let i = choose|i: int| 0 <= i < seen.len() && seen[i] == id;
                assert(list[i] < list[t as int]);
            }
            assert(next[t as int] == id);
            assert forall|other: usize| other != id implies #[trigger] next.contains(other)
                == seen.contains(other) by {
                if next.contains(other) {
                    let i = choose|i: int| 0 <= i < next.len() && next[i] == other;
                    assert(seen[i] == other);
                }
                if seen.contains(other) {
                    let i = choose|i: int| 0 <= i < seen.len() && seen[i] == other;
                    assert(next[i] == other);
                }
            }
        }
        let lowered = minus(scores[id], w);
        scores.set(id, lowered);
        t += 1;
    }
    assert(list@.take(list.len() as int) =~= list@);
}

impl Index {
    /// Makes an index with no image.
    pub fn new() -> (index: Index)
        ensures
            index@ == IndexView::empty(),
            index@.wf(),
            all_finite(index@),
    {
        let index = Index {
            paths: Vec::new(),
            averages: Vec::new(),
            positive: empty_table(),
            negative: empty_table(),
        };
        assert(index@.paths =~= IndexView::empty().paths);
        assert(index@.averages =~= IndexView::empty().averages);
        index
    }

    /// Adds the image `path` with signature `sig`. It gets the next id, and
    /// that id is appended to the list of each of its coefficients, by sign;
    /// nothing else changes.
    pub fn insert(&mut self, path: &str, sig: &Signature)
        requires
            old(self)@.wf(),
        ensures
            final(self)@ == old(self)@.insert(path@, sig@),
            final(self)@.wf(),
            all_finite(old(self)@) && are_finite(sig@.averages) ==> all_finite(final(self)@),
    {
        proof {
            use_type_invariant(sig);
        }
        append(
            &mut self.paths,
            &mut self.averages,
            &mut self.positive,
            &mut self.negative,
            path,
            sig,
        );
        proof {
            insert_keeps_wf(old(self)@, path@, sig@);
            if all_finite(old(self)@) && are_finite(sig@.averages) {
                insert_keeps_finite(old(self)@, path@, sig@);
            }
        }
    }

    /// Computes the baseline of every stored image against the averages of
    /// `sig`.
    fn baselines(&self, sig: &Signature) -> (scores: Vec<u32>)
        requires
            self@.wf(),
        ensures
            scores.len() == self@.len(),
            forall|id: int| 0 <= id < scores.len() ==> #[trigger] scores[id] == baseline(self@, sig@, id),
    {
        let first = sig.average_at(0);
        let second = sig.average_at(1);
        let third = sig.average_at(2);
        let mut scores: Vec<u32> = Vec::new();
        let mut id: usize = 0;
        while id < self.averages.len()
            invariant
                self@.wf(),
                id <= self.averages.len(),
                scores.len() == id,
                first == sig@.averages[0],
                second == sig@.averages[1],
                third == sig@.averages[2],
                forall|i: int| 0 <= i < id ==> #[trigger] scores[i] == baseline(self@, sig@, i),
            decreases self.averages.len() - id,
        {
            assert(self@.averages[id as int].len() == CHANNELS);
            let entry = &self.averages[id];
            let mut total: u32 = 0;
            total = plus(total, times(weight(0, 0), magnitude(minus(first, entry[0]))));
            total = plus(total, times(weight(1, 0), magnitude(minus(second, entry[1]))));
            total = plus(total, times(weight(2, 0), magnitude(minus(third, entry[2]))));
            scores.push(total);
            id += 1;
        }
        scores
    }

    /// Ranks the stored images against the signature `sig` and returns the
    /// `RESULTS` best, or all where they are fewer: in ascending order of
    /// score, images of equal score in the order in which they were added.
    pub fn rank(&self, sig: &Signature) -> (results: Vec<Match>)
        requires
            self@.wf(),
        ensures
            is_ranking(self@, sig@, results@),
    {
        proof {
            use_type_invariant(sig);
        }
        let ghost iv = self@;
        let ghost q = sig@;
        let n = self.paths.len();
        let mut tally = self.baselines(sig);
        let mut k: usize = 0;
        while k < NUM_COEFFS
            invariant
                iv == self@,
                q == sig@,
                iv.wf(),
                q.wf(),
                n == iv.len(),
                k <= NUM_COEFFS,
                tally.len() == n,
                forall|id: int|
                    0 <= id < n ==> #[trigger] tally[id] == score_after(iv, q, id, CHANNELS * k),
            decreases NUM_COEFFS - k,
        {
            let mut c: usize = 0;
            while c < CHANNELS
                invariant
                    iv == self@,
                    q == sig@,
                    iv.wf(),
                    q.wf(),
                    n == iv.len(),
                    k < NUM_COEFFS,
                    c <= CHANNELS,
                    tally.len() == n,
                    forall|id: int|
                        0 <= id < n ==> #[trigger] tally[id] == score_after(
                            iv,
                            q,
                            id,
                            CHANNELS * k + c,
                        ),
                decreases CHANNELS - c,
            {
                let v = sig.coefficient_at(c, k);
                let ghost t = CHANNELS * k + c;
                let ghost earlier = tally@;
                proof {
                    assert(channel_of(t) == c && place_of(t) == k);
                    assert(coefficient_of(q, t) == v);
                    assert(valid_coefficients(q.coefficients[c as int]));
                    assert(1 <= q.coefficients[c as int][k as int].position < NUM_PIXELS2);
                }
                if is_significant(v.bits) {
                    let at = v.position as usize;
                    let w = weight(c, bin(at / NUM_PIXELS, at % NUM_PIXELS));
                    assert(iv.positive[c as int][at as int] == self.positive[c as int][at as int]@);
                    assert(iv.negative[c as int][at as int] == self.negative[c as int][at as int]@);
                    assert(is_id_list(iv.positive[c as int][at as int], n as int));
                    assert(is_id_list(iv.negative[c as int][at as int], n as int));
                    if is_positive(v.bits) {
                        credit(&mut tally, &self.positive[c][at], w);
                    } else {
                        credit(&mut tally, &self.negative[c][at], w);
                    }
                }
                proof {
                    assert forall|id: int| 0 <= id < n implies #[trigger] tally[id] == score_after(
                        iv,
                        q,
                        id,
                        t + 1,
                    ) by {
                        assert(earlier[id] == score_after(iv, q, id, t));
                    }
                }
                c += 1;
            }
            k += 1;
        }
        let mut keys: Vec<i64> = Vec::new();
        let mut id: usize = 0;
        while id < n
            invariant
                id <= n,
                n == tally.len(),
                keys.len() == id,
                forall|i: int| 0 <= i < id ==> #[trigger] keys[i] == key_of(tally[i]),
            decreases n - id,
        {
            keys.push(key(tally[id]));
            id += 1;
        }
        assert(keys@ =~= score_keys(iv, q));
        let picks = leading(&keys, 0, RESULTS);
        let mut results: Vec<Match> = Vec::new();
        let mut i: usize = 0;
        while i < picks.len()
            invariant
                iv == self@,
                n == iv.len(),
                n == self.paths.len(),
                tally.len() == n,
                i <= picks.len(),
                results.len() == i,
                forall|j: int| 0 <= j < picks.len() ==> (#[trigger] picks[j]) < n,
                forall|j: int|
                    0 <= j < i ==> (#[trigger] results[j]).id == picks[j] && results[j].path@
                        == iv.paths[picks[j] as int] && results[j].score == tally[picks[j] as int],
            decreases picks.len() - i,
        {
            let id = picks[i];
            results.push(Match { id, path: self.paths[id].clone(), score: tally[id] });
            i += 1;
        }
        assert(ids_of(results@) =~= picks@);
        results
    }

    /// Computes the signature of an encoded image: the image is decoded,
    /// blurred where `blur` is set, scaled to the grid, separated into its
    /// colour planes, decomposed and summarised.
    ///
    /// Fails, with [`SignatureError::Decode`], only when the data cannot be
    /// decoded. The averages of the signature are finite.
    pub fn get_sig(data: &[u8], blur: bool) -> (r: Result<Signature, SignatureError>)
        ensures
            r is Ok ==> exists|rgb: Seq<u8>|
                rgb.len() == NUM_BYTES && #[trigger] is_signature_of_pixels(rgb, r->Ok_0@),
            r is Ok ==> are_finite(r->Ok_0@.averages),
            r is Err ==> r->Err_0 == SignatureError::Decode,
    {
        let decoded = match decode(data) {
            Ok(pixels) => pixels,
            Err(e) => {
                return Err(e);
            },
        };
        let input = if blur {
            match crate::decode::blur(decoded) {
                Ok(pixels) => pixels,
                Err(e) => {
                    return Err(e);
                },
            }
        } else {
            decoded
        };
        let rgb = match resize(input) {
            Ok(rgb) => rgb,
            Err(e) => {
                return Err(e);
            },
        };
        match extract(&rgb) {
            Ok(sig) => {
                proof {
                    pixels_give_finite_samples(rgb@, sig@);
                }
                Ok(sig)
            },
            Err(e) => Err(e),
        }
    }

    /// Adds the encoded image `data` under the identifier `path`: computes
    /// its signature, without blur, and inserts it.
    ///
    /// Fails as [`Index::get_sig`] does, and then leaves the index as it is.
    /// An index whose averages are all finite stays one.
    pub fn update(&mut self, path: &str, data: &[u8]) -> (r: Result<(), SignatureError>)
        requires
            old(self)@.wf(),
        ensures
            final(self)@.wf(),
            r is Ok ==> exists|rgb: Seq<u8>, s: SignatureView|
                rgb.len() == NUM_BYTES && #[trigger] is_signature_of_pixels(rgb, s) && final(self)@
                    == old(self)@.insert(path@, s),
            r is Err ==> final(self)@ == old(self)@ && r->Err_0 == SignatureError::Decode,
            all_finite(old(self)@) ==> all_finite(final(self)@),
    {
        match Index::get_sig(data, false) {
            Ok(sig) => {
                self.insert(path, &sig);
                Ok(())
            },
            Err(e) => Err(e),
        }
    }

    /// Ranks the stored images against the encoded image `data`: computes
    /// its signature, with blur, and ranks the images against it.
    ///
    /// Fails as [`Index::get_sig`] does.
    pub fn query_buf(&self, data: &[u8]) -> (r: Result<Vec<Match>, SignatureError>)
        requires
            self@.wf(),
        ensures
            r is Ok ==> exists|rgb: Seq<u8>, s: SignatureView|
                rgb.len() == NUM_BYTES && #[trigger] is_signature_of_pixels(rgb, s) && is_ranking(
                    self@,
                    s,
                    r->Ok_0@,
                ),
            r is Err ==> r->Err_0 == SignatureError::Decode,
    {
        match Index::get_sig(data, true) {
            Ok(sig) => Ok(self.rank(&sig)),
            Err(e) => Err(e),
        }
    }

    /// The number of stored images.
    pub fn len(&self) -> (n: usize)
        ensures
            n == self@.len(),
    {
        self.paths.len()
    }

    /// The identifier of the image `id`, or `None` where no such image is
    /// stored.
    pub fn path(&self, id: usize) -> (path: Option<&str>)
        ensures
            id < self@.len() ==> path.is_some() && path.unwrap()@ == self@.paths[id as int],
            id >= self@.len() ==> path.is_none(),
    {
        if id < self.paths.len() {
            Some(self.paths[id].as_str())
        } else {
            None
        }
    }

    /// The channel averages of the image `id`, or `None` where no such image
    /// is stored.
    pub fn averages(&self, id: usize) -> (entry: Option<&Vec<u32>>)
        requires
            self@.wf(),
        ensures
            id < self@.len() ==> entry.is_some() && entry.unwrap()@ == self@.averages[id as int],
            id >= self@.len() ==> entry.is_none(),
    {
        if id < self.averages.len() {
            Some(&self.averages[id])
        } else {
            None
        }
    }

    /// The ids of the images with a coefficient of channel `c` at position
    /// `p` whose sample is positive (`positive`) or is not (`!positive`), or
    /// `None` where there is no such channel or position.
    pub fn listed(&self, c: usize, p: usize, positive: bool) -> (list: Option<&Vec<usize>>)
        requires
            self@.wf(),
        ensures
            c < CHANNELS && p < NUM_PIXELS2 ==> list.is_some() && list.unwrap()@ == if positive {
                self@.positive[c as int][p as int]
            } else {
                self@.negative[c as int][p as int]
            },
            !(c < CHANNELS && p < NUM_PIXELS2) ==> list.is_none(),
    {
        if c < CHANNELS && p < NUM_PIXELS2 {
            proof {
                assert(self@.positive[c as int].len() == NUM_PIXELS2);
                assert(self@.negative[c as int].len() == NUM_PIXELS2);
            }
            if positive {
                Some(&self.positive[c][p])
            } else {
                Some(&self.negative[c][p])
            }
        } else {
            None
        }
    }
}

} // verus!
