//! The Haar wavelet decomposition of a line and of a square plane.

use crate::binary32::{add_of, minus, mul_of, plus, sub_of, times, ONE};
use crate::weights::{NUM_PIXELS, NUM_PIXELS2};
use vstd::prelude::*;

verus! {

/// The factor by which the scale of the differences shrinks from one level
/// to the next: the sample 0.7071, for the reciprocal of the square root of
/// two.
pub const HALF_ROOT: u32 = 0x3F35_0481;

/// The sums of the adjacent pairs of a line.
pub open spec fn sums_of(s: Seq<u32>) -> Seq<u32> {
    Seq::new(s.len() / 2, |k: int| add_of(s[2 * k], s[2 * k + 1]))
}

/// The differences of the adjacent pairs of a line, each scaled by `c`.
pub open spec fn differences_of(s: Seq<u32>, c: u32) -> Seq<u32> {
    Seq::new(s.len() / 2, |k: int| mul_of(sub_of(s[2 * k], s[2 * k + 1]), c))
}

/// The decomposition of a line whose scale has come down to `c`: the
/// decomposition of its sums, at the next scale, followed by its differences
/// at that scale; and of a single sample, the sample scaled by `c`.
pub open spec fn decomposed(s: Seq<u32>, c: u32) -> Seq<u32>
    decreases s.len(),
{
    if s.len() <= 1 {
        Seq::new(s.len(), |k: int| mul_of(s[k], c))
    } else {
        let next = mul_of(c, HALF_ROOT);
        decomposed(sums_of(s), next) + differences_of(s, next)
    }
}

/// The Haar decomposition of a line.
pub open spec fn haar1d_of(s: Seq<u32>) -> Seq<u32> {
    decomposed(s, ONE)
}

/// Row `r` of a plane.
pub open spec fn row_of(plane: Seq<u32>, r: int) -> Seq<u32> {
    Seq::new(NUM_PIXELS as nat, |j: int| plane[r * NUM_PIXELS + j])
}

/// Column `j` of a plane.
pub open spec fn column_of(plane: Seq<u32>, j: int) -> Seq<u32> {
    Seq::new(NUM_PIXELS as nat, |r: int| plane[r * NUM_PIXELS + j])
}

/// The plane with every row decomposed.
pub open spec fn rows_decomposed(plane: Seq<u32>) -> Seq<u32> {
    Seq::new(
        NUM_PIXELS2 as nat,
        |p: int| haar1d_of(row_of(plane, p / (NUM_PIXELS as int)))[p % (NUM_PIXELS as int)],
    )
}

/// The plane with every column decomposed.
pub open spec fn columns_decomposed(plane: Seq<u32>) -> Seq<u32> {
    Seq::new(
        NUM_PIXELS2 as nat,
        |p: int| haar1d_of(column_of(plane, p % (NUM_PIXELS as int)))[p / (NUM_PIXELS as int)],
    )
}

/// The Haar decomposition of a plane: of every row, then of every column of
/// the result.
pub open spec fn haar2d_of(plane: Seq<u32>) -> Seq<u32> {
    columns_decomposed(rows_decomposed(plane))
}

/// Decomposes a line of `NUM_PIXELS` samples in place.
///
/// At each level the front of the line, twice as long as at the next level,
/// is replaced by the sums of its pairs followed by their scaled
/// differences; the one sample that is left at the end is scaled too.
pub fn haar1d(line: &mut Vec<u32>)
    requires
        old(line).len() == NUM_PIXELS,
    ensures
        final(line).len() == NUM_PIXELS,
        final(line)@ == haar1d_of(old(line)@),
{
    let ghost target = haar1d_of(line@);
    let ghost mut front: Seq<u32> = line@;
    let ghost mut back: Seq<u32> = Seq::empty();
    let mut spare: Vec<u32> = Vec::new();
    let mut c: u32 = ONE;
    let mut h: usize = NUM_PIXELS;
    assert(front + back =~= line@);
    while h > 1
        invariant
            h == 128 || h == 64 || h == 32 || h == 16 || h == 8 || h == 4 || h == 2 || h == 1,
            line.len() == NUM_PIXELS,
            front.len() == h,
            back.len() == NUM_PIXELS - h,
            line@ == front + back,
            decomposed(front, c) + back == target,
        decreases h,
    {
        let half = h / 2;
        let next = times(c, HALF_ROOT);
        let ghost sums = sums_of(front);
        let ghost differences = differences_of(front, next);
        spare.clear();
        let mut k: usize = 0;
        while k < half
            invariant
                h == 2 * half,
                h <= NUM_PIXELS,
                k <= half,
                line.len() == NUM_PIXELS,
                front.len() == h,
                back.len() == NUM_PIXELS - h,
                sums == sums_of(front),
                differences == differences_of(front, next),
                spare.len() == k,
                forall|i: int| 0 <= i < k ==> #[trigger] spare[i] == differences[i],
                forall|i: int| 0 <= i < k ==> #[trigger] line[i] == sums[i],
                forall|i: int| k <= i < NUM_PIXELS ==> #[trigger] line[i] == (front + back)[i],
            decreases half - k,
        {
            let a = line[2 * k];
            let b = line[2 * k + 1];
            assert(a == front[2 * k]);
            assert(b == front[2 * k + 1]);
            spare.push(times(minus(a, b), next));
            line.set(k, plus(a, b));
            k += 1;
        }
        let mut k: usize = 0;
        while k < half
            invariant
                h == 2 * half,
                h <= NUM_PIXELS,
                k <= half,
                line.len() == NUM_PIXELS,
                front.len() == h,
                back.len() == NUM_PIXELS - h,
                sums.len() == half,
                differences.len() == half,
                spare.len() == half,
                forall|i: int| 0 <= i < half ==> #[trigger] spare[i] == differences[i],
                forall|i: int| 0 <= i < half ==> #[trigger] line[i] == sums[i],
                forall|i: int| half <= i < half + k ==> #[trigger] line[i] == differences[i - half],
                forall|i: int| h <= i < NUM_PIXELS ==> #[trigger] line[i] == back[i - h],
            decreases half - k,
        {
            line.set(half + k, spare[k]);
            k += 1;
        }
        proof {
            assert(line@ =~= sums + (differences + back));
            assert(decomposed(front, c) == decomposed(sums, next) + differences);
            assert(decomposed(sums, next) + (differences + back) =~= (decomposed(sums, next)
                + differences) + back);
            front = sums;
            back = differences + back;
        }
        c = next;
        h = half;
    }
    let first = line[0];
    assert(first == front[0]);
    line.set(0, times(first, c));
    proof {
        assert(decomposed(front, c) =~= seq![mul_of(front[0], c)]);
        assert(line@ =~= decomposed(front, c) + back);
    }
}

/// Decomposes a plane of `NUM_PIXELS2` samples in place: every row, then
/// every column.
pub fn haar2d(data: &mut Vec<u32>)
    requires
        old(data).len() == NUM_PIXELS2,
    ensures
        final(data).len() == NUM_PIXELS2,
        final(data)@ == haar2d_of(old(data)@),
{
    let ghost start = data@;
    let mut line: Vec<u32> = Vec::new();
    let mut r: usize = 0;
    while r < NUM_PIXELS
        invariant
            r <= NUM_PIXELS,
            data.len() == NUM_PIXELS2,
            start.len() == NUM_PIXELS2,
            forall|p: int| 0 <= p < r * NUM_PIXELS ==> #[trigger] data[p] == rows_decomposed(start)[p],
            forall|p: int| r * NUM_PIXELS <= p < NUM_PIXELS2 ==> #[trigger] data[p] == start[p],
        decreases NUM_PIXELS - r,
    {
        line.clear();
        let mut j: usize = 0;
        while j < NUM_PIXELS
            invariant
                r < NUM_PIXELS,
                j <= NUM_PIXELS,
                data.len() == NUM_PIXELS2,
                line.len() == j,
                forall|i: int| 0 <= i < j ==> #[trigger] line[i] == data[r * NUM_PIXELS + i],
            decreases NUM_PIXELS - j,
        {
            line.push(data[r * NUM_PIXELS + j]);
            j += 1;
        }
        assert(line@ =~= row_of(start, r as int));
        haar1d(&mut line);
        let ghost before = data@;
        let mut j: usize = 0;
        while j < NUM_PIXELS
            invariant
                r < NUM_PIXELS,
                j <= NUM_PIXELS,
                data.len() == NUM_PIXELS2,
                before.len() == NUM_PIXELS2,
                line.len() == NUM_PIXELS,
                forall|p: int|
                    r * NUM_PIXELS <= p < r * NUM_PIXELS + j ==> #[trigger] data[p] == line[p - r
                        * NUM_PIXELS],
                forall|p: int|
                    0 <= p < NUM_PIXELS2 && !(r * NUM_PIXELS <= p < r * NUM_PIXELS + j)
                        ==> #[trigger] data[p] == before[p],
            decreases NUM_PIXELS - j,
        {
            data.set(r * NUM_PIXELS + j, line[j]);
            j += 1;
        }
        proof {
            assert forall|p: int| 0 <= p < (r + 1) * NUM_PIXELS implies #[trigger] data[p]
                == rows_decomposed(start)[p] by {
                if p >= r * NUM_PIXELS {
                    assert(p / (NUM_PIXELS as int) == r);
                    assert(p % (NUM_PIXELS as int) == p - r * NUM_PIXELS);
                } else {
                    assert(data[p] == before[p]);
                }
            }
        }
        r += 1;
    }
    assert(data@ =~= rows_decomposed(start));
    let ghost middle = data@;
    let mut c: usize = 0;
    while c < NUM_PIXELS
        invariant
            c <= NUM_PIXELS,
            data.len() == NUM_PIXELS2,
            middle.len() == NUM_PIXELS2,
            forall|p: int|
                0 <= p < NUM_PIXELS2 && p % (NUM_PIXELS as int) < c ==> #[trigger] data[p]
                    == columns_decomposed(middle)[p],
            forall|p: int|
                0 <= p < NUM_PIXELS2 && p % (NUM_PIXELS as int) >= c ==> #[trigger] data[p]
                    == middle[p],
        decreases NUM_PIXELS - c,
    {
        line.clear();
        let mut i: usize = 0;
        while i < NUM_PIXELS
            invariant
                c < NUM_PIXELS,
                i <= NUM_PIXELS,
                data.len() == NUM_PIXELS2,
                line.len() == i,
                forall|k: int| 0 <= k < i ==> #[trigger] line[k] == data[k * NUM_PIXELS + c],
            decreases NUM_PIXELS - i,
        {
            line.push(data[i * NUM_PIXELS + c]);
            i += 1;
        }
        proof {
            assert forall|k: int| 0 <= k < NUM_PIXELS implies line[k] == column_of(middle, c as int)[k] by {
                let p = k * NUM_PIXELS + c;
                assert(p % (NUM_PIXELS as int) == c);
                assert(data[p] == middle[p]);
            }
            assert(line@ =~= column_of(middle, c as int));
        }
        haar1d(&mut line);
        let ghost before = data@;
        let mut i: usize = 0;
        while i < NUM_PIXELS
            invariant
                c < NUM_PIXELS,
                i <= NUM_PIXELS,
                data.len() == NUM_PIXELS2,
                before.len() == NUM_PIXELS2,
                line.len() == NUM_PIXELS,
                forall|p: int|
                    0 <= p < i * NUM_PIXELS && p % (NUM_PIXELS as int) == c ==> #[trigger] data[p]
                        == line[p / (NUM_PIXELS as int)],
                forall|p: int|
                    0 <= p < NUM_PIXELS2 && !(p < i * NUM_PIXELS && p % (NUM_PIXELS as int) == c)
                        ==> #[trigger] data[p] == before[p],
            decreases NUM_PIXELS - i,
        {
            data.set(i * NUM_PIXELS + c, line[i]);
            i += 1;
        }
        proof {
            assert forall|p: int|
                0 <= p < NUM_PIXELS2 && p % (NUM_PIXELS as int) < c + 1 implies #[trigger] data[p]
                == columns_decomposed(middle)[p] by {
                if p % (NUM_PIXELS as int) == c {
                    assert(p < NUM_PIXELS * NUM_PIXELS);
                } else {
                    assert(data[p] == before[p]);
                }
            }
            assert forall|p: int|
                0 <= p < NUM_PIXELS2 && p % (NUM_PIXELS as int) >= c + 1 implies #[trigger] data[p]
                == middle[p] by {
                assert(data[p] == before[p]);
            }
        }
        c += 1;
    }
    assert(data@ =~= columns_decomposed(middle));
}

} // verus!
