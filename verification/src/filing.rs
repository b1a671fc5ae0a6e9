//! How often the tables of an index list an image.

use crate::index::{marked, marked_within, IndexView};
use crate::sample::{Coefficient};
use crate::signature::{valid_coefficients, SignatureView};
use crate::weights::{CHANNELS, NUM_COEFFS, NUM_PIXELS2};
use vstd::prelude::*;

verus! {

/// How many of the two lists of channel `c` at position `p` hold `id`.
pub open spec fn listed(iv: IndexView, c: int, p: int, id: usize) -> int {
    (if iv.positive[c][p].contains(id) { 1int } else { 0int }) + (if iv.negative[c][p].contains(id) {
        1int
    } else {
        0int
    })
}

/// How many lists of channel `c` at the positions below `n` hold `id`.
pub open spec fn filings(iv: IndexView, c: int, id: usize, n: int) -> int
    decreases n,
{
    if n <= 0 {
        0
    } else {
        filings(iv, c, id, n - 1) + listed(iv, c, n - 1, id)
    }
}

/// No image is listed under both signs at one position, no image is listed at
/// the origin, and every stored image is listed `NUM_COEFFS` times in each
/// channel.
pub open spec fn is_filing(iv: IndexView) -> bool {
    &&& forall|c: int, p: int, id: usize|
        0 <= c < CHANNELS && 0 <= p < NUM_PIXELS2 ==> !(#[trigger] iv.positive[c][p].contains(id)
            && iv.negative[c][p].contains(id))
    &&& forall|c: int| 0 <= c < CHANNELS ==> (#[trigger] iv.positive[c])[0].len() == 0
    &&& forall|c: int| 0 <= c < CHANNELS ==> (#[trigger] iv.negative[c])[0].len() == 0
    &&& forall|c: int, id: usize|
        0 <= c < CHANNELS && id < iv.paths.len() ==> #[trigger] filings(iv, c, id, NUM_PIXELS2 as int)
            == NUM_COEFFS
}

/// How many signs the first `m` coefficients mark at position `p`.
spec fn marks_at(coeffs: Seq<Coefficient>, m: int, p: int) -> int {
    (if marked_within(coeffs, m, p, true) { 1int } else { 0int }) + (if marked_within(
        coeffs,
        m,
        p,
        false,
    ) { 1int } else { 0int })
}

/// How many signs the first `m` coefficients mark at the positions below `n`.
spec fn marks_below(coeffs: Seq<Coefficient>, m: int, n: int) -> int
    decreases n,
{
    if n <= 0 {
        0
    } else {
        marks_below(coeffs, m, n - 1) + marks_at(coeffs, m, n - 1)
    }
}

/// One more coefficient marks one more sign below `n` where its position is
/// below `n`.
proof fn lemma_marks_below_next(coeffs: Seq<Coefficient>, m: int, n: int)
    requires
        valid_coefficients(coeffs),
        0 <= m < NUM_COEFFS,
        0 <= n,
    ensures
        marks_below(coeffs, m + 1, n) == marks_below(coeffs, m, n) + if coeffs[m].position < n {
            1int
        } else {
            0int
        },
    decreases n,
{
    if n > 0 {
        lemma_marks_below_next(coeffs, m, n - 1);
    }
}

/// The first `m` coefficients mark `m` signs over the whole grid.
proof fn lemma_marks_below_counts(coeffs: Seq<Coefficient>, m: int)
    requires
        valid_coefficients(coeffs),
        0 <= m <= NUM_COEFFS,
    ensures
        marks_below(coeffs, m, NUM_PIXELS2 as int) == m,
    decreases m,
{
    if m == 0 {
        lemma_marks_below_none(coeffs, NUM_PIXELS2 as int);
    } else {
        lemma_marks_below_counts(coeffs, m - 1);
        lemma_marks_below_next(coeffs, m - 1, NUM_PIXELS2 as int);
    }
}

/// No coefficient marks nothing.
proof fn lemma_marks_below_none(coeffs: Seq<Coefficient>, n: int)
    ensures
        marks_below(coeffs, 0, n) == 0,
    decreases n,
{
    if n > 0 {
        lemma_marks_below_none(coeffs, n - 1);
    }
}

/// A list with one more id holds what it held, and that id.
pub(crate) proof fn lemma_pushed_contains(list: Seq<usize>, new: usize, id: usize)
    ensures
        list.push(new).contains(id) == (list.contains(id) || id == new),
{
    let longer = list.push(new);
    if list.contains(id) {
        let i = choose|i: int| 0 <= i < list.len() && list[i] == id;
        assert(longer[i] == id);
    }
    if id == new {
        assert(longer[list.len() as int] == id);
    }
}

/// After an image has been added, a list holds the new id exactly where the
/// signature marks its position with its sign, and holds an id other than the
/// new one exactly where it held it before.
pub(crate) proof fn lemma_insert_lists(
    iv: IndexView,
    path: Seq<char>,
    s: SignatureView,
    c: int,
    p: int,
    id: usize,
)
    requires
        iv.wf(),
        iv.len() < usize::MAX,
        0 <= c < CHANNELS,
        0 <= p < NUM_PIXELS2,
    ensures
        iv.insert(path, s).positive[c][p].contains(id) == if id == iv.len() {
            marked(s.coefficients[c], p, true)
        } else {
            iv.positive[c][p].contains(id)
        },
        iv.insert(path, s).negative[c][p].contains(id) == if id == iv.len() {
            marked(s.coefficients[c], p, false)
        } else {
            iv.negative[c][p].contains(id)
        },
{
    let new = iv.len() as usize;
    lemma_pushed_contains(iv.positive[c][p], new, id);
    lemma_pushed_contains(iv.negative[c][p], new, id);
}

/// Adding an image leaves the filings of the images before it as they were.
proof fn lemma_filings_kept(
    iv: IndexView,
    path: Seq<char>,
    s: SignatureView,
    c: int,
    id: usize,
    n: int,
)
    requires
        iv.wf(),
        iv.len() < usize::MAX,
        0 <= c < CHANNELS,
        0 <= n <= NUM_PIXELS2,
        id != iv.len(),
    ensures
        filings(iv.insert(path, s), c, id, n) == filings(iv, c, id, n),
    decreases n,
{
    if n > 0 {
        lemma_filings_kept(iv, path, s, c, id, n - 1);
        lemma_insert_lists(iv, path, s, c, n - 1, id);
    }
}

/// The filings of an image that has just been added are the signs that its
/// coefficients mark.
proof fn lemma_filings_of_new(iv: IndexView, path: Seq<char>, s: SignatureView, c: int, n: int)
    requires
        iv.wf(),
        s.wf(),
        iv.len() < usize::MAX,
        0 <= c < CHANNELS,
        0 <= n <= NUM_PIXELS2,
    ensures
        filings(iv.insert(path, s), c, iv.len() as usize, n) == marks_below(
            s.coefficients[c],
            NUM_COEFFS as int,
            n,
        ),
    decreases n,
{
    if n > 0 {
        lemma_filings_of_new(iv, path, s, c, n - 1);
        lemma_insert_lists(iv, path, s, c, n - 1, iv.len() as usize);
    }
}

/// An image that has just been added is listed once for each coefficient of
/// each channel: `NUM_COEFFS` times, over all positions and both signs.
pub proof fn insert_files_each_coefficient(iv: IndexView, path: Seq<char>, s: SignatureView, c: int)
    requires
        iv.wf(),
        s.wf(),
        iv.len() < usize::MAX,
        0 <= c < CHANNELS,
    ensures
        filings(iv.insert(path, s), c, iv.len() as usize, NUM_PIXELS2 as int) == NUM_COEFFS,
{
    lemma_filings_of_new(iv, path, s, c, NUM_PIXELS2 as int);
    lemma_marks_below_counts(s.coefficients[c], NUM_COEFFS as int);
}

/// Adding an image with a well-formed signature keeps the filing consistent.
pub(crate) proof fn lemma_insert_keeps_filing(iv: IndexView, path: Seq<char>, s: SignatureView)
    requires
        iv.wf(),
        s.wf(),
        iv.len() < usize::MAX,
    ensures
        is_filing(iv.insert(path, s)),
{
    let after = iv.insert(path, s);
    assert forall|c: int, p: int, id: usize| 0 <= c < CHANNELS && 0 <= p < NUM_PIXELS2 implies !(
    #[trigger] after.positive[c][p].contains(id) && after.negative[c][p].contains(id)) by {
        lemma_insert_lists(iv, path, s, c, p, id);
    }
    assert forall|c: int, id: usize| 0 <= c < CHANNELS && id < after.paths.len() implies #[trigger] filings(
        after,
        c,
        id,
        NUM_PIXELS2 as int,
    ) == NUM_COEFFS by {
        if id == iv.len() {
            insert_files_each_coefficient(iv, path, s, c);
        } else {
            lemma_filings_kept(iv, path, s, c, id, NUM_PIXELS2 as int);
        }
    }
}

} // verus!
