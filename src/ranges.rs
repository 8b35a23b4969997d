//! Half-open index ranges and the facts about sequences of them that the
//! allocator and the bit field share.

use std::ops::Range;
use vstd::prelude::*;

verus! {

/// Whether index `i` lies in one of the ranges of `rs`.
pub open spec fn covers(rs: Seq<Range<usize>>, i: int) -> bool {
    exists|j: int| 0 <= j < rs.len() && (#[trigger] rs[j]).start <= i < rs[j].end
}

/// The ranges are non-empty, in ascending order, and no two of them overlap
/// or touch.
pub open spec fn separated(rs: Seq<Range<usize>>) -> bool {
    &&& forall|j: int| 0 <= j < rs.len() ==> #[trigger] rs[j].start < rs[j].end
    &&& forall|j: int, k: int| 0 <= j < k < rs.len() ==> #[trigger] rs[j].end < #[trigger] rs[k].start
}

/// The number of indices in `r`, zero when it is empty or reversed.
pub open spec fn range_len(r: Range<usize>) -> nat {
    if r.start <= r.end {
        (r.end - r.start) as nat
    } else {
        0
    }
}

/// The sum of the lengths of the ranges of `rs`.
pub open spec fn total_len(rs: Seq<Range<usize>>) -> nat
    decreases rs.len(),
{
    if rs.len() == 0 {
        0
    } else {
        total_len(rs.drop_last()) + range_len(rs.last())
    }
}

/// The ranges of `rs` seen as one set of indices.
pub open spec fn covered_set(rs: Seq<Range<usize>>) -> Set<int> {
    Set::new(|i: int| covers(rs, i))
}

/// Separated ranges cover exactly as many indices as their total length.
pub proof fn lemma_covered_len(rs: Seq<Range<usize>>)
    requires
        separated(rs),
    ensures
        covered_set(rs).finite(),
        covered_set(rs).len() == total_len(rs),
    decreases rs.len(),
{
    if rs.len() == 0 {
        assert(covered_set(rs) =~= Set::<int>::empty());
    } else {
        let t = rs.drop_last();
        let r = rs.last();
        assert forall|j: int| 0 <= j < t.len() implies #[trigger] t[j].start < t[j].end by {
            assert(t[j] == rs[j]);
        }
        assert forall|j: int, k: int| 0 <= j < k < t.len() implies #[trigger] t[j].end < #[trigger] t[k].start by {
            assert(t[j] == rs[j] && t[k] == rs[k]);
        }
        lemma_covered_len(t);
        let a = covered_set(t);
        let b = vstd::set_lib::set_int_range(r.start as int, r.end as int);
        assert(r == rs[rs.len() - 1]);
        assert(r.start < r.end);
        vstd::set_lib::lemma_int_range(r.start as int, r.end as int);
        assert(rs =~= t.push(r));
        assert forall|i: int| #[trigger] covered_set(rs).contains(i) == (a + b).contains(i) by {
            lemma_covers_push(t, r, i);
        }
        assert(covered_set(rs) =~= a + b);
        assert(a.disjoint(b)) by {
            assert forall|i: int| a.contains(i) implies !b.contains(i) by {
                let j = choose|j: int| 0 <= j < t.len() && (#[trigger] t[j]).start <= i < t[j].end;
                assert(rs[j].end < rs[rs.len() - 1].start);
            }
        }
        vstd::set_lib::lemma_set_disjoint_lens(a, b);
    }
}

/// Pushing a range adds its indices to what a sequence covers.
pub proof fn lemma_covers_push(rs: Seq<Range<usize>>, r: Range<usize>, i: int)
    ensures
        covers(rs.push(r), i) == (covers(rs, i) || (r.start <= i < r.end)),
{
    if covers(rs, i) {
        let j = choose|j: int| 0 <= j < rs.len() && (#[trigger] rs[j]).start <= i < rs[j].end;
        assert(rs.push(r)[j] == rs[j]);
    }
    if r.start <= i < r.end {
        assert(rs.push(r)[rs.len() as int] == r);
    }
    if covers(rs.push(r), i) {
        let j = choose|j: int| 0 <= j < rs.len() + 1 && (#[trigger] rs.push(r)[j]).start <= i < rs.push(r)[j].end;
        if j < rs.len() {
            assert(rs.push(r)[j] == rs[j]);
        }
    }
}

/// The total length of a concatenation is the sum of the totals.
pub proof fn lemma_total_len_concat(a: Seq<Range<usize>>, b: Seq<Range<usize>>)
    ensures
        total_len(a + b) == total_len(a) + total_len(b),
    decreases b.len(),
{
    if b.len() == 0 {
        assert(a + b =~= a);
    } else {
        lemma_total_len_concat(a, b.drop_last());
        assert((a + b).drop_last() =~= a + b.drop_last());
    }
}

/// The total length of a sequence is that of the part before `j`, plus the
/// length of the range at `j`, plus that of the part after it.
pub proof fn lemma_total_len_split(s: Seq<Range<usize>>, j: int)
    requires
        0 <= j < s.len(),
    ensures
        total_len(s) == total_len(s.subrange(0, j)) + range_len(s[j]) + total_len(
            s.subrange(j + 1, s.len() as int),
        ),
{
    let a = s.subrange(0, j);
    let b = s.subrange(j + 1, s.len() as int);
    lemma_total_len_concat(a.push(s[j]), b);
    assert(a.push(s[j]) + b =~= s);
    assert(a.push(s[j]).drop_last() =~= a);
}

/// A sequence of one range has that range's length.
pub proof fn lemma_total_len_one(r: Range<usize>)
    ensures
        total_len(seq![r]) == range_len(r),
{
    assert(seq![r].drop_last() =~= Seq::<Range<usize>>::empty());
    assert(total_len(Seq::<Range<usize>>::empty()) == 0);
    assert(seq![r].last() == r);
}

/// Separated ranges hold at least one index each.
pub proof fn lemma_total_len_at_least(rs: Seq<Range<usize>>)
    requires
        separated(rs),
    ensures
        total_len(rs) >= rs.len(),
    decreases rs.len(),
{
    if rs.len() > 0 {
        let t = rs.drop_last();
        assert forall|j: int| 0 <= j < t.len() implies #[trigger] t[j].start < t[j].end by {
            assert(t[j] == rs[j]);
        }
        assert forall|j: int, k: int| 0 <= j < k < t.len() implies #[trigger] t[j].end < #[trigger] t[k].start by {
            assert(t[j] == rs[j] && t[k] == rs[k]);
        }
        lemma_total_len_at_least(t);
        assert(rs.last() == rs[rs.len() - 1]);
    }
}

/// Separated ranges holding one index in total are one range of length one.
pub proof fn lemma_single_index(rs: Seq<Range<usize>>)
    requires
        separated(rs),
        total_len(rs) == 1,
    ensures
        rs.len() == 1,
        rs[0].end == rs[0].start + 1,
        covers(rs, rs[0].start as int),
{
    lemma_total_len_at_least(rs);
    if rs.len() == 0 {
    } else {
        let t = rs.drop_last();
        assert forall|j: int| 0 <= j < t.len() implies #[trigger] t[j].start < t[j].end by {
            assert(t[j] == rs[j]);
        }
        assert forall|j: int, k: int| 0 <= j < k < t.len() implies #[trigger] t[j].end < #[trigger] t[k].start by {
            assert(t[j] == rs[j] && t[k] == rs[k]);
        }
        lemma_total_len_at_least(t);
        assert(rs.last() == rs[rs.len() - 1]);
        assert(rs[rs.len() - 1].start < rs[rs.len() - 1].end);
        if rs.len() == 1 {
            assert(t.len() == 0);
        }
        assert(rs[0].start <= rs[0].start < rs[0].end);
    }
}

/// The indices of separated ranges, in ascending order.
pub fn flatten(ranges: &Vec<Range<usize>>) -> (r: Vec<usize>)
    requires
        separated(ranges@),
    ensures
        r@.len() == total_len(ranges@),
        forall|x: int, y: int| 0 <= x < y < r@.len() ==> r@[x] < r@[y],
        forall|x: int| 0 <= x < r@.len() ==> covers(ranges@, #[trigger] r@[x] as int),
        forall|i: int| #[trigger] covers(ranges@, i) ==> r@.contains(i as usize),
{
    let mut r: Vec<usize> = Vec::new();
    let mut k: usize = 0;
    while k < ranges.len()
        invariant
            separated(ranges@),
            0 <= k <= ranges@.len(),
            r@.len() == total_len(ranges@.subrange(0, k as int)),
            forall|x: int, y: int| 0 <= x < y < r@.len() ==> r@[x] < r@[y],
            forall|x: int| 0 <= x < r@.len() ==> covers(ranges@.subrange(0, k as int), #[trigger] r@[x] as int),
            forall|i: int| #[trigger] covers(ranges@.subrange(0, k as int), i) ==> r@.contains(i as usize),
            k < ranges@.len() ==> forall|x: int| 0 <= x < r@.len() ==> #[trigger] r@[x] < ranges@[k as int].start,
        decreases ranges@.len() - k,
    {
        let start = ranges[k].start;
        let end = ranges[k].end;
        let ghost r0 = r@;
        let mut i = start;
        while i < end
            invariant
                start <= i <= end,
                start == ranges@[k as int].start,
                end == ranges@[k as int].end,
                r@.len() == r0.len() + (i - start),
                forall|x: int| 0 <= x < r0.len() ==> #[trigger] r@[x] == r0[x],
                forall|x: int| r0.len() <= x < r@.len() ==> #[trigger] r@[x] == start + (x - r0.len()),
            decreases end - i,
        {
            r.push(i);
            i += 1;
        }
        proof {
            let sub0 = ranges@.subrange(0, k as int);
            let sub1 = ranges@.subrange(0, k + 1);
            assert(sub1 =~= sub0.push(ranges@[k as int]));
            assert(sub1.drop_last() =~= sub0);
            assert forall|x: int, y: int| 0 <= x < y < r@.len() implies r@[x] < r@[y] by {
                if x < r0.len() && y >= r0.len() {
                    assert(r0[x] < start);
                } else if y < r0.len() {
                    assert(r0[x] < r0[y]);
                }
            }
            assert forall|x: int| 0 <= x < r@.len() implies covers(sub1, #[trigger] r@[x] as int) by {
                lemma_covers_push(sub0, ranges@[k as int], r@[x] as int);
                if x < r0.len() {
                    assert(covers(sub0, r0[x] as int));
                }
            }
            assert forall|i: int| #[trigger] covers(sub1, i) implies r@.contains(i as usize) by {
                lemma_covers_push(sub0, ranges@[k as int], i);
                if covers(sub0, i) {
                    assert(r0.contains(i as usize));
                    let x = choose|x: int| 0 <= x < r0.len() && r0[x] == i as usize;
                    assert(r@[x] == r0[x]);
                } else {
                    let x = r0.len() + (i - start);
                    assert(r@[x] == i);
                }
            }
            if k + 1 < ranges@.len() {
                assert(ranges@[k as int].end < ranges@[k + 1].start);
                assert forall|x: int| 0 <= x < r@.len() implies #[trigger] r@[x] < ranges@[k + 1].start by {
                    if x < r0.len() {
                        assert(r0[x] < start);
                    }
                }
            }
        }
        k += 1;
    }
    assert(ranges@.subrange(0, ranges@.len() as int) =~= ranges@);
    r
}

} // verus!
