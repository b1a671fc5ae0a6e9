//! Bounded selection: the `k` candidates that come first under a total order
//! on keyed indices.
//!
//! Both the choice of a channel's strongest coefficients and the ranking of
//! scored images are instances of it.

use vstd::prelude::*;

verus! {

/// The order on the indices of `keys`: the smaller key first, and of two equal
/// keys the smaller index.
pub open spec fn precedes(keys: Seq<i64>, a: int, b: int) -> bool {
    keys[a] < keys[b] || (keys[a] == keys[b] && a < b)
}

/// `q` is one of `picks`.
pub open spec fn holds(picks: Seq<usize>, q: int) -> bool {
    exists|i: int| 0 <= i < picks.len() && picks[i] == q
}

/// Every one of `picks` comes before `q`.
pub open spec fn all_precede(keys: Seq<i64>, picks: Seq<usize>, q: int) -> bool {
    forall|i: int| 0 <= i < picks.len() ==> precedes(keys, #[trigger] picks[i] as int, q)
}

/// `picks` lists, in order, the first `k` of the candidates `start..end`, or
/// all of them where they are fewer: it is strictly ascending under
/// [`precedes`], and a candidate is left out only when `picks` is full and all
/// of it comes before that candidate.
pub open spec fn is_leading_to(
    keys: Seq<i64>,
    start: int,
    end: int,
    k: int,
    picks: Seq<usize>,
) -> bool {
    &&& picks.len() == if end - start < k { if end < start { 0 } else { end - start } } else { k }
    &&& forall|i: int| 0 <= i < picks.len() ==> start <= #[trigger] picks[i] < end
    &&& forall|i: int, j: int|
        0 <= i < j < picks.len() ==> precedes(keys, #[trigger] picks[i] as int, #[trigger] picks[j] as int)
    &&& forall|q: int|
        start <= q < end ==> #[trigger] holds(picks, q) || (picks.len() == k && all_precede(
            keys,
            picks,
            q,
        ))
}

/// `picks` lists, in order, the first `k` of the indices of `keys` from
/// `start` on.
pub open spec fn is_leading(keys: Seq<i64>, start: int, k: int, picks: Seq<usize>) -> bool {
    is_leading_to(keys, start, keys.len() as int, k, picks)
}

/// Selects the `k` indices from `start` on that have the smallest keys, equal
/// keys in index order, by one pass over the candidates with a sorted buffer
/// of at most `k` entries: a candidate enters when the buffer has room or when
/// it comes before the buffer's last entry, which is then evicted.
pub fn leading(keys: &Vec<i64>, start: usize, k: usize) -> (picks: Vec<usize>)
    ensures
        is_leading(keys@, start as int, k as int, picks@),
{
    let n = keys.len();
    let mut picks: Vec<usize> = Vec::new();
    if k == 0 || start >= n {
        return picks;
    }
    let mut p: usize = start;
    while p < n
        invariant
            n == keys.len(),
            0 < k,
            start <= p <= n,
            is_leading_to(keys@, start as int, p as int, k as int, picks@),
        decreases n - p,
    {
        let full = picks.len() == k;
        let take = if full {
            keys[p] < keys[picks[k - 1]]
        } else {
            true
        };
        let ghost before = picks@;
        if take {
            if full {
                picks.pop();
            }
            let ghost kept = picks@;
            let mut j: usize = picks.len();
            while j > 0 && keys[p] < keys[picks[j - 1]]
                invariant
                    n == keys.len(),
                    p < n,
                    j <= picks.len(),
                    picks@ == kept,
                    forall|i: int| 0 <= i < kept.len() ==> (#[trigger] kept[i]) < n,
                    forall|i: int| j <= i < kept.len() ==> keys[p as int] < keys[(#[trigger] kept[i]) as int],
                decreases j,
            {
                j -= 1;
            }
            picks.insert(j, p);
            proof {
                let after = picks@;
                assert(after.len() == kept.len() + 1);
                assert(after[j as int] == p);
                assert(forall|i: int| 0 <= i < j ==> after[i] == kept[i]);
                assert(forall|i: int| j < i < after.len() ==> after[i] == kept[i - 1]);
                assert forall|i: int| 0 <= i < j implies precedes(
                    keys@,
                    #[trigger] kept[i] as int,
                    p as int,
                ) by {
                    if i < j - 1 {
                        assert(precedes(keys@, kept[i] as int, kept[j - 1] as int));
                    }
                }
                assert forall|a: int, b: int| 0 <= a < b < after.len() implies precedes(
                    keys@,
                    #[trigger] after[a] as int,
                    #[trigger] after[b] as int,
                ) by {
                    if b < j {
                        assert(precedes(keys@, kept[a] as int, kept[b] as int));
                    } else if b == j {
                        assert(precedes(keys@, kept[a] as int, p as int));
                    } else if a == j {
                        assert(keys@[p as int] < keys@[kept[b - 1] as int]);
                    } else if a < j {
                        assert(precedes(keys@, kept[a] as int, kept[b - 1] as int));
                    } else {
                        assert(precedes(keys@, kept[a - 1] as int, kept[b - 1] as int));
                    }
                }
                assert forall|q: int| start <= q < p + 1 implies #[trigger] holds(after, q) || (
                after.len() == k && all_precede(keys@, after, q)) by {
                    if q == p {
                        assert(after[j as int] == q);
                    } else if holds(kept, q) {
                        let i = choose|i: int| 0 <= i < kept.len() && kept[i] == q;
                        if i < j {
                            assert(after[i] == q);
                        } else {
                            assert(after[i + 1] == q);
                        }
                    } else {
                        // `q` was left out before, or is the entry just evicted.
                        assert(full);
                        let last = before[k - 1] as int;
                        assert(keys@[p as int] < keys@[last]);
                        if holds(before, q) {
                            let i = choose|i: int| 0 <= i < before.len() && before[i] == q;
                            if i < k - 1 {
                                assert(kept[i] == q);
                            }
                            assert(q == last);
                        } else {
                            assert(all_precede(keys@, before, q));
                            assert(precedes(keys@, before[k - 1] as int, q));
                        }
                        assert forall|i: int| 0 <= i < after.len() implies precedes(
                            keys@,
                            #[trigger] after[i] as int,
                            q,
                        ) by {
                            if i == j {
                            } else {
                                let o = if i < j { i } else { i - 1 };
                                assert(after[i] == kept[o]);
                                assert(kept[o] == before[o]);
                                if q == last {
                                    assert(precedes(keys@, before[o] as int, before[k - 1] as int));
                                } else {
                                    assert(precedes(keys@, before[o] as int, q));
                                }
                            }
                        }
                    }
                }
            }
        } else {
            proof {
                let last = before[k - 1] as int;
                assert forall|i: int| 0 <= i < before.len() implies precedes(
                    keys@,
                    #[trigger] before[i] as int,
                    p as int,
                ) by {
                    if i < k - 1 {
                        assert(precedes(keys@, before[i] as int, before[k - 1] as int));
                    }
                }
                assert(all_precede(keys@, before, p as int));
            }
        }
        p += 1;
    }
    picks
}

/// Where two selections from the same candidates agree below `i`, the `i`th
/// entry of the first cannot come before the `i`th entry of the second.
proof fn lemma_entry_not_before(
    keys: Seq<i64>,
    start: int,
    end: int,
    k: int,
    a: Seq<usize>,
    b: Seq<usize>,
    i: int,
)
    requires
        is_leading_to(keys, start, end, k, a),
        is_leading_to(keys, start, end, k, b),
        0 <= i < a.len(),
        forall|j: int| 0 <= j < i ==> a[j] == b[j],
    ensures
        !precedes(keys, a[i] as int, b[i] as int),
{
    let x = a[i] as int;
    if precedes(keys, x, b[i] as int) {
        assert(start <= a[i] < end);
        if holds(b, x) {
            let m = choose|m: int| 0 <= m < b.len() && b[m] == x;
            if m < i {
                assert(precedes(keys, a[m] as int, a[i] as int));
            } else if m > i {
                assert(precedes(keys, b[i] as int, b[m] as int));
            }
        } else {
            assert(all_precede(keys, b, x));
            assert(precedes(keys, b[i] as int, x));
        }
    }
}

/// Two selections from the same candidates agree on their first `i` entries.
proof fn lemma_prefixes_agree(
    keys: Seq<i64>,
    start: int,
    end: int,
    k: int,
    a: Seq<usize>,
    b: Seq<usize>,
    i: int,
)
    requires
        is_leading_to(keys, start, end, k, a),
        is_leading_to(keys, start, end, k, b),
        0 <= i <= a.len(),
    ensures
        forall|j: int| 0 <= j < i ==> a[j] == b[j],
    decreases i,
{
    if i > 0 {
        lemma_prefixes_agree(keys, start, end, k, a, b, i - 1);
        lemma_entry_not_before(keys, start, end, k, a, b, i - 1);
        lemma_entry_not_before(keys, start, end, k, b, a, i - 1);
    }
}

/// The keys determine the selection: two lists that both hold the first `k`
/// of the same candidates are the same list.
pub proof fn leading_is_unique(keys: Seq<i64>, start: int, k: int, a: Seq<usize>, b: Seq<usize>)
    requires
        is_leading(keys, start, k, a),
        is_leading(keys, start, k, b),
    ensures
        a == b,
{
    lemma_prefixes_agree(keys, start, keys.len() as int, k, a, b, a.len() as int);
}

/// The first entry of a selection comes before every other candidate.
pub proof fn leading_starts_with_least(keys: Seq<i64>, start: int, k: int, picks: Seq<usize>, q: int)
    requires
        is_leading(keys, start, k, picks),
        start <= q < keys.len(),
        0 < k,
    ensures
        picks.len() > 0,
        picks[0] == q || precedes(keys, picks[0] as int, q),
{
    if holds(picks, q) {
        let i = choose|i: int| 0 <= i < picks.len() && picks[i] == q;
        if i > 0 {
            assert(precedes(keys, picks[0] as int, picks[i] as int));
        }
    } else {
        assert(all_precede(keys, picks, q));
        assert(precedes(keys, picks[0] as int, q));
    }
}

} // verus!
