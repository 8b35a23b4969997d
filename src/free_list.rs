//! Edits of a sorted, separated sequence of free ranges, each proved to keep
//! the sequence separated and to change what it covers as intended.

use crate::ranges::{
    covers, lemma_total_len_concat, lemma_total_len_split, range_len, separated, total_len,
};
use std::ops::Range;
use vstd::prelude::*;

verus! {

/// `j` is the first free range in `s` that holds at least `size` indices.
pub open spec fn first_fit(s: Seq<Range<usize>>, size: nat, j: int) -> bool {
    &&& 0 <= j < s.len()
    &&& range_len(s[j]) >= size
    &&& forall|k: int| 0 <= k < j ==> range_len(#[trigger] s[k]) < size
}

/// Take the first `size` indices of the free range at `j`, dropping the range
/// when nothing is left of it.
pub(crate) fn take_front(ranges: &mut Vec<Range<usize>>, j: usize, size: usize, Ghost(cap): Ghost<usize>)
    requires
        separated(old(ranges)@),
        forall|k: int| 0 <= k < old(ranges)@.len() ==> #[trigger] old(ranges)@[k].end <= cap,
        j < old(ranges)@.len(),
        size <= range_len(old(ranges)@[j as int]),
    ensures
        separated(final(ranges)@),
        forall|k: int| 0 <= k < final(ranges)@.len() ==> #[trigger] final(ranges)@[k].end <= cap,
        total_len(final(ranges)@) + size == total_len(old(ranges)@),
        forall|i: int| #[trigger] covers(final(ranges)@, i) == (covers(old(ranges)@, i) && !(old(
            ranges,
        )@[j as int].start <= i < old(ranges)@[j as int].start + size)),
        j == 0 && final(ranges)@.len() > 0 ==> final(ranges)@[0].start >= old(ranges)@[0].start + size,
        j == 0 && size < range_len(old(ranges)@[0]) ==> final(ranges)@[0].start == old(ranges)@[0].start + size,
        j == 0 && size == range_len(old(ranges)@[0]) ==> final(ranges)@ == old(ranges)@.subrange(1, old(ranges)@.len() as int),
{
    let ghost pre = ranges@;
    let n = ranges.len();
    let ghost q = j as int;
    let start = ranges[j].start;
    let end = ranges[j].end;
    proof {
        lemma_total_len_split(pre, q);
    }
    if end - start == size {
        ranges.remove(j);
        proof {
            let post = ranges@;
            assert(post =~= pre.subrange(0, q) + pre.subrange(q + 1, n as int));
            lemma_total_len_concat(pre.subrange(0, q), pre.subrange(q + 1, n as int));
            assert forall|i: int| #[trigger] covers(post, i) == (covers(pre, i) && !(start <= i < start + size)) by {
                if covers(pre, i) {
                    let k = choose|k: int| 0 <= k < pre.len() && (#[trigger] pre[k]).start <= i < pre[k].end;
                    if k < q { assert(post[k] == pre[k]); } else if k > q { assert(post[k - 1] == pre[k]); }
                }
                if covers(post, i) {
                    let k = choose|k: int| 0 <= k < post.len() && (#[trigger] post[k]).start <= i < post[k].end;
                    if k < q {
                        assert(post[k] == pre[k]);
                        assert(pre[k].end < pre[q].start);
                    } else {
                        assert(post[k] == pre[k + 1]);
                        assert(pre[q].end < pre[k + 1].start);
                    }
                }
            }
            assert forall|a: int, b: int| 0 <= a < b < post.len() implies #[trigger] post[a].end < #[trigger] post[b].start by {
                let aa = if a < q { a } else { a + 1 };
                let bb = if b < q { b } else { b + 1 };
                assert(post[a] == pre[aa] && post[b] == pre[bb]);
            }
            assert forall|k: int| 0 <= k < post.len() implies #[trigger] post[k].start < post[k].end && post[k].end <= cap by {
                if k < q { assert(post[k] == pre[k]); } else { assert(post[k] == pre[k + 1]); }
            }
            if q == 0 && post.len() > 0 {
                assert(post[0] == pre[1]);
                assert(pre[0].end < pre[1].start);
            }
        }
    } else {
        ranges.set(j, Range { start: start + size, end });
        proof {
            let post = ranges@;
            lemma_total_len_split(post, q);
            assert(post.subrange(0, q) =~= pre.subrange(0, q));
            assert(post.subrange(q + 1, n as int) =~= pre.subrange(q + 1, n as int));
            assert forall|i: int| #[trigger] covers(post, i) == (covers(pre, i) && !(start <= i < start + size)) by {
                if covers(pre, i) {
                    let k = choose|k: int| 0 <= k < pre.len() && (#[trigger] pre[k]).start <= i < pre[k].end;
                    if k != q {
                        assert(post[k] == pre[k]);
                        if start <= i < start + size {
                            if k < q { assert(pre[k].end < pre[q].start); } else { assert(pre[q].end < pre[k].start); }
                        }
                    }
                }
                if covers(post, i) {
                    let k = choose|k: int| 0 <= k < post.len() && (#[trigger] post[k]).start <= i < post[k].end;
                    if k != q {
                        assert(post[k] == pre[k]);
                        if k < q { assert(pre[k].end < pre[q].start); } else { assert(pre[q].end < pre[k].start); }
                    } else {
                        assert(pre[q].start <= i < pre[q].end);
                    }
                }
            }
            assert forall|a: int, b: int| 0 <= a < b < post.len() implies #[trigger] post[a].end < #[trigger] post[b].start by {
                assert(pre[a].end < pre[b].start);
            }
            assert forall|k: int| 0 <= k < post.len() implies #[trigger] post[k].start < post[k].end && post[k].end <= cap by {
                if k != q { assert(post[k] == pre[k]); }
            }
        }
    }
}

/// `range` is non-empty and belongs between the free ranges before `p` and
/// those from `p` on, none of which overlaps it.
pub open spec fn fits_at(pre: Seq<Range<usize>>, p: int, range: Range<usize>) -> bool {
    &&& 0 <= p <= pre.len()
    &&& range.start < range.end
    &&& forall|j: int| 0 <= j < p ==> (#[trigger] pre[j]).end <= range.start
    &&& forall|j: int| p <= j < pre.len() ==> (#[trigger] pre[j]).start >= range.end
}

/// What a merge of `range` into the free ranges `pre` leaves in `post`.
pub open spec fn merged(
    pre: Seq<Range<usize>>,
    post: Seq<Range<usize>>,
    range: Range<usize>,
    cap: nat,
) -> bool {
    &&& separated(post)
    &&& forall|j: int| 0 <= j < post.len() ==> #[trigger] post[j].end <= cap
    &&& total_len(post) == total_len(pre) + range_len(range)
    &&& forall|i: int| #[trigger] covers(post, i) == (covers(pre, i) || (range.start <= i < range.end))
}

/// After the range at `q` of `pre` was widened by `range`, which touches it,
/// what `post` covers is what `pre` covers and `range`.
proof fn lemma_widened_covers(pre: Seq<Range<usize>>, post: Seq<Range<usize>>, q: int, range: Range<usize>)
    requires
        0 <= q < pre.len(),
        post.len() == pre.len(),
        forall|j: int| 0 <= j < pre.len() && j != q ==> post[j] == pre[j],
        (post[q] == Range { start: pre[q].start, end: range.end } && pre[q].end == range.start
            && pre[q].start < pre[q].end) || (post[q] == Range { start: range.start, end: pre[q].end }
            && range.end == pre[q].start && pre[q].start < pre[q].end),
        range.start < range.end,
    ensures
        forall|i: int| #[trigger] covers(post, i) == (covers(pre, i) || (range.start <= i < range.end)),
{
    assert forall|i: int| #[trigger] covers(post, i) == (covers(pre, i) || (range.start <= i < range.end)) by {
        if covers(pre, i) {
            let j = choose|j: int| 0 <= j < pre.len() && (#[trigger] pre[j]).start <= i < pre[j].end;
            assert(post[j].start <= i < post[j].end);
        }
        if range.start <= i < range.end {
            assert(post[q].start <= i < post[q].end);
        }
        if covers(post, i) {
            let j = choose|j: int| 0 <= j < post.len() && (#[trigger] post[j]).start <= i < post[j].end;
            if j != q {
                assert(pre[j] == post[j]);
            } else if !(range.start <= i < range.end) {
                assert(pre[q].start <= i < pre[q].end);
            }
        }
    }
}

/// Merge `range` with the free range before `p` and the one at `p`, which it
/// touches on both sides.
pub(crate) fn merge_both(ranges: &mut Vec<Range<usize>>, p: usize, range: Range<usize>, Ghost(cap): Ghost<usize>)
    requires
        separated(old(ranges)@),
        forall|j: int| 0 <= j < old(ranges)@.len() ==> #[trigger] old(ranges)@[j].end <= cap,
        fits_at(old(ranges)@, p as int, range),
        0 < p < old(ranges)@.len(),
        old(ranges)@[p - 1].end == range.start,
        old(ranges)@[p as int].start == range.end,
    ensures
        merged(old(ranges)@, final(ranges)@, range, cap as nat),
{
    let ghost pre = ranges@;
    let n = ranges.len();
    let end = ranges[p].end;
    let start = ranges[p - 1].start;
    ranges.set(p - 1, Range { start, end });
    ranges.remove(p);
    proof {
        let q = (p - 1) as int;
        let post = ranges@;
        lemma_total_len_split(pre, q);
        lemma_total_len_split(pre.subrange(q + 1, n as int), 0);
        lemma_total_len_split(post, q);
        assert(pre.subrange(q + 1, n as int).subrange(1, n - q - 1) =~= pre.subrange(q + 2, n as int));
        assert(post.subrange(0, q) =~= pre.subrange(0, q));
        assert(post.subrange(q + 1, n - 1) =~= pre.subrange(q + 2, n as int));
        assert(pre.subrange(q + 1, n as int).subrange(0, 0) =~= Seq::<Range<usize>>::empty());
        assert(pre.subrange(q + 1, n as int)[0] == pre[q + 1]);
        assert forall|i: int| #[trigger] covers(post, i) == (covers(pre, i) || (range.start <= i < range.end)) by {
            if covers(pre, i) {
                let j = choose|j: int| 0 <= j < pre.len() && (#[trigger] pre[j]).start <= i < pre[j].end;
                if j < q { assert(post[j] == pre[j]); }
                else if j > q + 1 { assert(post[j - 1] == pre[j]); }
                else { assert(post[q] == Range { start, end }); }
            }
            if range.start <= i < range.end {
                assert(post[q] == Range { start, end });
            }
            if covers(post, i) {
                let j = choose|j: int| 0 <= j < post.len() && (#[trigger] post[j]).start <= i < post[j].end;
                if j < q { assert(pre[j] == post[j]); }
                else if j > q { assert(pre[j + 1] == post[j]); }
                else if i < range.start { assert(pre[q].start <= i < pre[q].end); }
                else if i >= range.end { assert(pre[q + 1].start <= i < pre[q + 1].end); }
            }
        }
        assert forall|j: int, k: int| 0 <= j < k < post.len() implies #[trigger] post[j].end < #[trigger] post[k].start by {
            let jj = if j <= q { j } else { j + 1 };
            let kk = if k < q { k } else { k + 1 };
            if j == q { assert(pre[q + 1].end < pre[kk].start); }
            else { assert(pre[jj].end < pre[kk].start); }
        }
        assert forall|j: int| 0 <= j < post.len() implies #[trigger] post[j].start < post[j].end by {
            if j < q { assert(post[j] == pre[j]); }
            else if j > q { assert(post[j] == pre[j + 1]); }
        }
        assert forall|j: int| 0 <= j < post.len() implies #[trigger] post[j].end <= cap by {
            if j < q { assert(post[j] == pre[j]); }
            else if j > q { assert(post[j] == pre[j + 1]); }
            else { assert(pre[q + 1].end <= cap); }
        }
    }
}

/// Widen the free range before `p`, which ends where `range` starts, to the
/// end of `range`.
pub(crate) fn extend_prev(ranges: &mut Vec<Range<usize>>, p: usize, range: Range<usize>, Ghost(cap): Ghost<usize>)
    requires
        separated(old(ranges)@),
        forall|j: int| 0 <= j < old(ranges)@.len() ==> #[trigger] old(ranges)@[j].end <= cap,
        fits_at(old(ranges)@, p as int, range),
        range.end <= cap,
        0 < p <= old(ranges)@.len(),
        old(ranges)@[p - 1].end == range.start,
        p < old(ranges)@.len() ==> old(ranges)@[p as int].start != range.end,
    ensures
        merged(old(ranges)@, final(ranges)@, range, cap as nat),
{
    let ghost pre = ranges@;
    let n = ranges.len();
    let start = ranges[p - 1].start;
    ranges.set(p - 1, Range { start, end: range.end });
    proof {
        let q = (p - 1) as int;
        let post = ranges@;
        lemma_total_len_split(pre, q);
        lemma_total_len_split(post, q);
        assert(post.subrange(0, q) =~= pre.subrange(0, q));
        assert(post.subrange(q + 1, n as int) =~= pre.subrange(q + 1, n as int));
        lemma_widened_covers(pre, post, q, range);
        assert forall|j: int, k: int| 0 <= j < k < post.len() implies #[trigger] post[j].end < #[trigger] post[k].start by {
            if j == q { assert(pre[k].start >= range.end); }
            else if k == q { assert(pre[j].end < pre[q].start); }
            else { assert(pre[j].end < pre[k].start); }
        }
        assert forall|j: int| 0 <= j < post.len() implies #[trigger] post[j].start < post[j].end by {
            if j != q { assert(post[j] == pre[j]); }
        }
        assert forall|j: int| 0 <= j < post.len() implies #[trigger] post[j].end <= cap by {
            if j != q { assert(post[j] == pre[j]); }
        }
    }
}

/// Widen the free range at `p`, which starts where `range` ends, to the start
/// of `range`.
pub(crate) fn extend_next(ranges: &mut Vec<Range<usize>>, p: usize, range: Range<usize>, Ghost(cap): Ghost<usize>)
    requires
        separated(old(ranges)@),
        forall|j: int| 0 <= j < old(ranges)@.len() ==> #[trigger] old(ranges)@[j].end <= cap,
        fits_at(old(ranges)@, p as int, range),
        p < old(ranges)@.len(),
        old(ranges)@[p as int].start == range.end,
        p > 0 ==> old(ranges)@[p - 1].end != range.start,
    ensures
        merged(old(ranges)@, final(ranges)@, range, cap as nat),
{
    let ghost pre = ranges@;
    let n = ranges.len();
    let end = ranges[p].end;
    ranges.set(p, Range { start: range.start, end });
    proof {
        let q = p as int;
        let post = ranges@;
        lemma_total_len_split(pre, q);
        lemma_total_len_split(post, q);
        assert(post.subrange(0, q) =~= pre.subrange(0, q));
        assert(post.subrange(q + 1, n as int) =~= pre.subrange(q + 1, n as int));
        lemma_widened_covers(pre, post, q, range);
        assert forall|j: int, k: int| 0 <= j < k < post.len() implies #[trigger] post[j].end < #[trigger] post[k].start by {
            if k == q { assert(pre[j].end <= range.start); }
            else if j == q { assert(pre[q].end < pre[k].start); }
            else { assert(pre[j].end < pre[k].start); }
        }
        assert forall|j: int| 0 <= j < post.len() implies #[trigger] post[j].start < post[j].end by {
            if j != q { assert(post[j] == pre[j]); }
        }
        assert forall|j: int| 0 <= j < post.len() implies #[trigger] post[j].end <= cap by {
            if j != q { assert(post[j] == pre[j]); }
        }
    }
}

/// Inserting a range that fits between its neighbours without touching them
/// keeps a sequence separated.
proof fn lemma_insert_separated(pre: Seq<Range<usize>>, q: int, r: Range<usize>)
    requires
        separated(pre),
        fits_at(pre, q, r),
        q < pre.len() ==> pre[q].start != r.end,
        q > 0 ==> pre[q - 1].end != r.start,
    ensures
        forall|j: int, k: int|
            0 <= j < k < pre.len() + 1 ==> #[trigger] pre.insert(q, r)[j].end < #[trigger] pre.insert(q, r)[k].start,
{
    let post = pre.insert(q, r);
    assert forall|j: int, k: int| 0 <= j < k < post.len() implies #[trigger] post[j].end < #[trigger] post[k].start by {
        if j == q {
            assert(post[k] == pre[k - 1]);
            if k - 1 > q { assert(pre[q].end < pre[k - 1].start); }
        } else if k == q {
            assert(post[j] == pre[j]);
            if j < q - 1 { assert(pre[j].end < pre[q - 1].start); }
        } else if k < q {
            assert(post[j] == pre[j] && post[k] == pre[k]);
            assert(pre[j].end < pre[k].start);
        } else if j < q {
            assert(post[j] == pre[j] && post[k] == pre[k - 1]);
            assert(pre[j].end < pre[k - 1].start);
        } else {
            assert(post[j] == pre[j - 1] && post[k] == pre[k - 1]);
            assert(pre[j - 1].end < pre[k - 1].start);
        }
    }
}

/// Inserting a range adds its indices to what a sequence covers.
proof fn lemma_insert_covers(pre: Seq<Range<usize>>, q: int, r: Range<usize>)
    requires
        0 <= q <= pre.len(),
    ensures
        forall|i: int| #[trigger] covers(pre.insert(q, r), i) == (covers(pre, i) || (r.start <= i < r.end)),
{
    let post = pre.insert(q, r);
    assert forall|i: int| #[trigger] covers(post, i) == (covers(pre, i) || (r.start <= i < r.end)) by {
        if covers(pre, i) {
            let j = choose|j: int| 0 <= j < pre.len() && (#[trigger] pre[j]).start <= i < pre[j].end;
            if j < q { assert(post[j] == pre[j]); } else { assert(post[j + 1] == pre[j]); }
        }
        if r.start <= i < r.end { assert(post[q] == r); }
        if covers(post, i) {
            let j = choose|j: int| 0 <= j < post.len() && (#[trigger] post[j]).start <= i < post[j].end;
            if j < q { assert(pre[j] == post[j]); }
            else if j > q { assert(pre[j - 1] == post[j]); }
        }
    }
}

/// Insert `range`, which touches no free range, as a free range of its own
/// at `p`.
pub(crate) fn insert_at(ranges: &mut Vec<Range<usize>>, p: usize, range: Range<usize>, Ghost(cap): Ghost<usize>)
    requires
        separated(old(ranges)@),
        forall|j: int| 0 <= j < old(ranges)@.len() ==> #[trigger] old(ranges)@[j].end <= cap,
        fits_at(old(ranges)@, p as int, range),
        range.end <= cap,
        p < old(ranges)@.len() ==> old(ranges)@[p as int].start != range.end,
        p > 0 ==> old(ranges)@[p - 1].end != range.start,
    ensures
        merged(old(ranges)@, final(ranges)@, range, cap as nat),
{
    let ghost pre = ranges@;
    let n = ranges.len();
    let r = Range { start: range.start, end: range.end };
    ranges.insert(p, r);
    proof {
        let q = p as int;
        let post = ranges@;
        assert(post =~= pre.insert(q, r));
        lemma_total_len_split(post, q);
        assert(post.subrange(0, q) =~= pre.subrange(0, q));
        assert(post.subrange(q + 1, n + 1) =~= pre.subrange(q, n as int));
        lemma_total_len_concat(pre.subrange(0, q), pre.subrange(q, n as int));
        assert(pre.subrange(0, q) + pre.subrange(q, n as int) =~= pre);
        lemma_insert_covers(pre, q, r);
        lemma_insert_separated(pre, q, r);
        assert forall|j: int| 0 <= j < post.len() implies #[trigger] post[j].start < post[j].end by {
            if j < q { assert(post[j] == pre[j]); }
            else if j > q { assert(post[j] == pre[j - 1]); }
        }
        assert forall|j: int| 0 <= j < post.len() implies #[trigger] post[j].end <= cap by {
            if j < q { assert(post[j] == pre[j]); }
            else if j > q { assert(post[j] == pre[j - 1]); }
        }
    }
}

/// Separated ranges that end by `bound` hold at most `bound` indices.
pub proof fn lemma_separated_total_bound(s: Seq<Range<usize>>, bound: usize)
    requires
        separated(s),
        forall|j: int| 0 <= j < s.len() ==> #[trigger] s[j].end <= bound,
    ensures
        total_len(s) <= bound,
        s.len() > 0 ==> total_len(s) <= s.last().end,
    decreases s.len(),
{
    if s.len() > 0 {
        let t = s.drop_last();
        assert forall|j: int| 0 <= j < t.len() implies #[trigger] t[j].end <= bound by {
            assert(t[j] == s[j]);
        }
        assert forall|j: int, k: int| 0 <= j < k < t.len() implies #[trigger] t[j].end < #[trigger] t[k].start by {
            assert(t[j] == s[j] && t[k] == s[k]);
        }
        assert forall|j: int| 0 <= j < t.len() implies #[trigger] t[j].start < t[j].end by {
            assert(t[j] == s[j]);
        }
        lemma_separated_total_bound(t, bound);
        if t.len() > 0 {
            assert(t.last() == s[s.len() - 2]);
            assert(s[s.len() - 2].end < s[s.len() - 1].start);
        }
        assert(s.last() == s[s.len() - 1]);
        assert(s[s.len() - 1].end <= bound);
    }
}

} // verus!
