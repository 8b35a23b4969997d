//! An allocator of half-open index ranges over `[0, capacity)`.

use crate::free_list::{
    extend_next, extend_prev, first_fit, fits_at, insert_at, lemma_separated_total_bound, merge_both,
    take_front,
};
use crate::ranges::{covers, lemma_covers_push, lemma_total_len_one, range_len, separated, total_len};
use std::ops::Range;
use vstd::prelude::*;

verus! {

/// Hands out ranges of indices from `[0, capacity)`.
///
/// The free ranges are kept in ascending order; no two of them overlap or
/// touch, and the count of used indices plus the free length is the capacity.
pub struct RangeAllocator {
    used: usize,
    capacity: usize,
    ranges: Vec<Range<usize>>,
}

impl RangeAllocator {
    /// The free ranges, in ascending order.
    pub closed spec fn free_view(&self) -> Seq<Range<usize>> {
        self.ranges@
    }

    /// The size of the managed index space.
    pub closed spec fn cap(&self) -> nat {
        self.capacity as nat
    }

    /// Whether index `i` is free.
    pub open spec fn is_free(&self, i: int) -> bool {
        covers(self.free_view(), i)
    }

    /// Whether index `i` lies in the index space and has been handed out.
    pub open spec fn is_used(&self, i: int) -> bool {
        0 <= i < self.cap() && !self.is_free(i)
    }

    /// The number of free indices.
    pub open spec fn free_len(&self) -> nat {
        total_len(self.free_view())
    }

    /// The allocator's invariant.
    pub closed spec fn wf(&self) -> bool {
        &&& separated(self.ranges@)
        &&& forall|j: int| 0 <= j < self.ranges@.len() ==> #[trigger] self.ranges@[j].end
            <= self.capacity
        &&& self.used + total_len(self.ranges@) == self.capacity
    }

    /// The free ranges lie within the index space and are in order.
    pub proof fn lemma_wf(&self)
        requires
            self.wf(),
        ensures
            separated(self.free_view()),
            forall|j: int|
                0 <= j < self.free_view().len() ==> #[trigger] self.free_view()[j].end <= self.cap(),
            self.free_len() <= self.cap(),
    {
    }

    /// Create a new [RangeAllocator] with no capacity.
    pub fn new() -> (r: Self)
        ensures
            r.wf(),
            r.cap() == 0,
            r.free_view() == Seq::<Range<usize>>::empty(),
    {
        RangeAllocator { used: 0, capacity: 0, ranges: Vec::new() }
    }

    /// Create a new [RangeAllocator] whose `capacity` indices are all free.
    pub fn with_capacity(capacity: usize) -> (r: Self)
        ensures
            r.wf(),
            r.cap() == capacity,
            r.free_view() == (if capacity == 0 {
                Seq::<Range<usize>>::empty()
            } else {
                seq![Range { start: 0usize, end: capacity }]
            }),
    {
        if capacity == 0 {
            Self::new()
        } else {
            let mut ranges = Vec::new();
            ranges.push(Range { start: 0, end: capacity });
            proof {
                lemma_total_len_one(Range { start: 0usize, end: capacity });
                assert(ranges@ =~= seq![Range { start: 0usize, end: capacity }]);
            }
            RangeAllocator { used: 0, capacity, ranges }
        }
    }

    /// Get the number of free indices.
    pub fn available(&self) -> (r: usize)
        requires
            self.wf(),
        ensures
            r == self.free_len(),
    {
        self.capacity - self.used
    }

    /// Whether index `i` has been handed out and not returned.
    pub fn is_allocated(&self, i: usize) -> (r: bool)
        requires
            self.wf(),
        ensures
            r == self.is_used(i as int),
    {
        if i >= self.capacity {
            return false;
        }
        let mut k: usize = 0;
        while k < self.ranges.len()
            invariant
                0 <= k <= self.ranges@.len(),
                forall|j: int| 0 <= j < k ==> !((#[trigger] self.ranges@[j]).start <= i < self.ranges@[j].end),
            decreases self.ranges@.len() - k,
        {
            if self.ranges[k].start <= i && i < self.ranges[k].end {
                return false;
            }
            k += 1;
        }
        true
    }

    /// Get the size of the index space.
    pub fn capacity(&self) -> (r: usize)
        ensures
            r == self.cap(),
    {
        self.capacity
    }

    /// The free ranges, in ascending order.
    pub fn free_ranges(&self) -> (r: Vec<Range<usize>>)
        ensures
            r@ == self.free_view(),
    {
        let mut r = Vec::new();
        let mut k: usize = 0;
        while k < self.ranges.len()
            invariant
                0 <= k <= self.ranges@.len(),
                r@ =~= self.ranges@.subrange(0, k as int),
            decreases self.ranges@.len() - k,
        {
            let x = Range { start: self.ranges[k].start, end: self.ranges[k].end };
            r.push(x);
            k += 1;
        }
        assert(r@ =~= self.ranges@);
        r
    }

    /// Take `size` new indices from the end of the index space, growing it.
    fn allocate_new(&mut self, size: usize) -> (r: Range<usize>)
        requires
            old(self).wf(),
            old(self).cap() + size <= usize::MAX,
        ensures
            final(self).wf(),
            final(self).free_view() == old(self).free_view(),
            final(self).cap() == old(self).cap() + size,
            r == (Range { start: old(self).capacity, end: (old(self).capacity + size) as usize }),
    {
        let start = self.capacity;
        self.capacity = self.capacity + size;
        self.used = self.used + size;
        Range { start, end: self.capacity }
    }

    /// Allocate a contiguous range of `size` indices from the first free range
    /// that is long enough. When there is none nothing changes, and the error
    /// holds how many indices the free space falls short of `size` in total
    /// (zero when the free space is enough but fragmented).
    pub fn try_allocate(&mut self, size: usize) -> (r: Result<Range<usize>, usize>)
        requires
            old(self).wf(),
        ensures
            final(self).wf(),
            final(self).cap() == old(self).cap(),
            r is Ok <==> exists|j: int|
                0 <= j < old(self).free_view().len() && range_len(
                    #[trigger] old(self).free_view()[j],
                ) >= size,
            r matches Ok(rg) ==> {
                &&& exists|j: int|
                    #[trigger] first_fit(old(self).free_view(), size as nat, j) && rg.start
                        == old(self).free_view()[j].start
                &&& rg.end == rg.start + size
                &&& forall|i: int| #[trigger]
                    final(self).is_free(i) == (old(self).is_free(i) && !(rg.start <= i < rg.end))
            },
            r matches Err(d) ==> {
                &&& *final(self) == *old(self)
                &&& d == (if size > old(self).free_len() {
                    size - old(self).free_len()
                } else {
                    0
                })
            },
    {
        let mut j: usize = 0;
        while j < self.ranges.len() && self.ranges[j].end - self.ranges[j].start < size
            invariant
                0 <= j <= self.ranges@.len(),
                self.wf(),
                forall|k: int| 0 <= k < j ==> range_len(#[trigger] self.ranges@[k]) < size,
            decreases self.ranges@.len() - j,
        {
            j += 1;
        }
        if j == self.ranges.len() {
            proof {
                lemma_separated_total_bound(self.ranges@, self.capacity);
            }
            let available = self.capacity - self.used;
            return Err(if size > available { size - available } else { 0 });
        }
        let ghost pre = *self;
        let start = self.ranges[j].start;
        proof {
            assert(first_fit(pre.free_view(), size as nat, j as int));
        }
        take_front(&mut self.ranges, j, size, Ghost(self.capacity));
        self.used = self.used + size;
        Ok(Range { start, end: start + size })
    }

    /// Allocate a contiguous range of `size` indices: from the first free
    /// range that is long enough, or else from new indices at the end of the
    /// index space.
    pub fn allocate(&mut self, size: usize) -> (r: Range<usize>)
        requires
            old(self).wf(),
            old(self).cap() + size <= usize::MAX,
        ensures
            final(self).wf(),
            r.end == r.start + size,
            (exists|j: int|
                0 <= j < old(self).free_view().len() && range_len(
                    #[trigger] old(self).free_view()[j],
                ) >= size) ==> {
                &&& final(self).cap() == old(self).cap()
                &&& exists|j: int|
                    #[trigger] first_fit(old(self).free_view(), size as nat, j) && r.start
                        == old(self).free_view()[j].start
            },
            !(exists|j: int|
                0 <= j < old(self).free_view().len() && range_len(
                    #[trigger] old(self).free_view()[j],
                ) >= size) ==> {
                &&& final(self).cap() == old(self).cap() + size
                &&& r.start == old(self).cap()
            },
            forall|i: int| #[trigger]
                final(self).is_free(i) == (old(self).is_free(i) && !(r.start <= i < r.end)),
    {
        match self.try_allocate(size) {
            Ok(range) => range,
            Err(_) => {
                let r = self.allocate_new(size);
                proof {
                    assert forall|i: int| #[trigger] self.is_free(i) implies !(r.start <= i < r.end) by {
                        let j = choose|j: int| 0 <= j < self.ranges@.len() && (#[trigger] self.ranges@[j]).start <= i < self.ranges@[j].end;
                        assert(self.ranges@[j].end <= old(self).capacity);
                    }
                }
                r
            },
        }
    }

    /// Allocate `size` indices, possibly spread over several ranges, appending
    /// those ranges to `ranges` in ascending order. The free ranges are used
    /// from the lowest up; whatever they cannot hold is taken from new indices
    /// at the end of the index space.
    #[verifier::spinoff_prover]
    #[verifier::rlimit(60)]
    pub fn allocate_fragmented(&mut self, size: usize, ranges: &mut Vec<Range<usize>>)
        requires
            old(self).wf(),
            old(self).cap() + size <= usize::MAX + old(self).free_len(),
        ensures
            final(self).wf(),
            fragmented_alloc(*old(self), *final(self), size as nat, old(ranges)@, final(ranges)@),
    {
        let ghost pre = *self;
        let ghost out0 = ranges@;
        let ghost n0 = ranges@.len();
        let mut remaining = size;
        let mut pushed = false;
        proof {
            assert(ranges@.subrange(n0 as int, ranges@.len() as int) =~= Seq::<Range<usize>>::empty());
            assert(ranges@.subrange(0, n0 as int) =~= out0);
        }
        while remaining > 0 && self.ranges.len() > 0
            invariant
                self.wf(),
                self.capacity == pre.capacity,
                pre.cap() + size <= usize::MAX + pre.free_len(),
                remaining <= size,
                pushed == (ranges@.len() > n0),
                ranges@.len() >= n0,
                ranges@.subrange(0, n0 as int) == out0,
                separated(ranges@.subrange(n0 as int, ranges@.len() as int)),
                total_len(ranges@.subrange(n0 as int, ranges@.len() as int)) + remaining == size,
                self.free_len() + (size - remaining) == pre.free_len(),
                forall|j: int| n0 <= j < ranges@.len() ==> #[trigger] ranges@[j].end <= pre.cap(),
                forall|i: int| #[trigger] covers(ranges@.subrange(n0 as int, ranges@.len() as int), i) == (pre.is_free(i) && !self.is_free(i)),
                forall|i: int| #[trigger] self.is_free(i) ==> pre.is_free(i),
                forall|i: int, k: int| #[trigger] covers(ranges@.subrange(n0 as int, ranges@.len() as int), i) && #[trigger] self.is_free(k) ==> i < k,
                remaining > 0 ==> forall|j: int, k: int| n0 <= j < ranges@.len() && 0 <= k < self.ranges@.len() ==> #[trigger] ranges@[j].end < #[trigger] self.ranges@[k].start,
            decreases remaining,
        {
            let ghost before = *self;
            let ghost new0 = ranges@.subrange(n0 as int, ranges@.len() as int);
            let start = self.ranges[0].start;
            let len = self.ranges[0].end - start;
            let take = if len < remaining { len } else { remaining };
            take_front(&mut self.ranges, 0, take, Ghost(self.capacity));
            self.used = self.used + take;
            let chunk = Range { start, end: start + take };
            ranges.push(chunk);
            pushed = true;
            remaining -= take;
            proof {
                let new1 = ranges@.subrange(n0 as int, ranges@.len() as int);
                assert forall|i: int| #[trigger] self.is_free(i) implies pre.is_free(i) by {
                    assert(before.is_free(i));
                }
                assert(new1 =~= new0.push(chunk));
                assert(new1.drop_last() =~= new0);
                assert(ranges@.subrange(0, n0 as int) =~= out0);
                assert(before.ranges@[0].start < before.ranges@[0].end);
                assert forall|i: int| #[trigger] covers(new1, i) == (pre.is_free(i) && !self.is_free(i)) by {
                    lemma_covers_push(new0, chunk, i);
                    if chunk.start <= i < chunk.end {
                        assert(before.ranges@[0].start <= i < before.ranges@[0].end);
                        assert(before.is_free(i));
                    }
                }
                assert forall|i: int, k: int| #[trigger] covers(new1, i) && #[trigger] self.is_free(k) implies i < k by {
                    lemma_covers_push(new0, chunk, i);
                    if chunk.start <= i < chunk.end {
                        let kk = choose|kk: int| 0 <= kk < self.ranges@.len() && (#[trigger] self.ranges@[kk]).start <= k < self.ranges@[kk].end;
                        if take < len {
                            if kk > 0 { assert(self.ranges@[0].start <= self.ranges@[kk].start); }
                        } else {
                            assert(self.ranges@[kk] == before.ranges@[kk + 1]);
                            assert(before.ranges@[0].end < before.ranges@[kk + 1].start);
                        }
                    }
                }
                assert forall|a: int, b: int| 0 <= a < b < new1.len() implies #[trigger] new1[a].end < #[trigger] new1[b].start by {
                    if b == new1.len() - 1 {
                        assert(new1[a] == ranges@[n0 + a]);
                        assert(ranges@[n0 + a].end < before.ranges@[0].start);
                    } else {
                        assert(new0[a].end < new0[b].start);
                    }
                }
                if remaining > 0 {
                    assert forall|j: int, k: int| n0 <= j < ranges@.len() && 0 <= k < self.ranges@.len() implies #[trigger] ranges@[j].end < #[trigger] self.ranges@[k].start by {
                        assert(self.ranges@[k] == before.ranges@[k + 1]);
                        assert(before.ranges@[0].end < before.ranges@[k + 1].start);
                        if j < ranges@.len() - 1 {
                            assert(ranges@[j].end < before.ranges@[0].start);
                        }
                    }
                }
            }
        }
        if remaining > 0 {
            let ghost before = *self;
            let ghost new0 = ranges@.subrange(n0 as int, ranges@.len() as int);
            let r = self.allocate_new(remaining);
            let n = ranges.len();
            if pushed && ranges[n - 1].end == r.start {
                let last_start = ranges[n - 1].start;
                ranges.set(n - 1, Range { start: last_start, end: r.end });
                proof {
                    let new1 = ranges@.subrange(n0 as int, ranges@.len() as int);
                    assert(new1 =~= new0.update(new0.len() - 1, Range { start: last_start, end: r.end }));
                    assert(new1.drop_last() =~= new0.drop_last());
                    assert(ranges@.subrange(0, n0 as int) =~= out0);
                    assert forall|i: int| #[trigger] covers(new1, i) == (covers(new0, i) || (r.start <= i < r.end)) by {
                        if covers(new0, i) {
                            let j = choose|j: int| 0 <= j < new0.len() && (#[trigger] new0[j]).start <= i < new0[j].end;
                            assert(new1[j].start <= i < new1[j].end);
                        }
                        if r.start <= i < r.end {
                            assert(new1[new0.len() - 1].start <= i < new1[new0.len() - 1].end);
                        }
                        if covers(new1, i) {
                            let j = choose|j: int| 0 <= j < new1.len() && (#[trigger] new1[j]).start <= i < new1[j].end;
                            if j < new0.len() - 1 { assert(new0[j] == new1[j]); }
                            else if i < r.start { assert(new0[j].start <= i < new0[j].end); }
                        }
                    }
                    assert forall|a: int, b: int| 0 <= a < b < new1.len() implies #[trigger] new1[a].end < #[trigger] new1[b].start by {
                        assert(new0[a].end < new0[b].start);
                    }
                    assert forall|a: int| 0 <= a < new1.len() implies #[trigger] new1[a].start < new1[a].end by {
                        assert(new0[a].start < new0[a].end);
                    }
                }
            } else {
                ranges.push(Range { start: r.start, end: r.end });
                proof {
                    let new1 = ranges@.subrange(n0 as int, ranges@.len() as int);
                    assert(new1 =~= new0.push(r));
                    assert(new1.drop_last() =~= new0);
                    assert(ranges@.subrange(0, n0 as int) =~= out0);
                    assert forall|i: int| #[trigger] covers(new1, i) == (covers(new0, i) || (r.start <= i < r.end)) by {
                        lemma_covers_push(new0, r, i);
                    }
                    assert forall|a: int, b: int| 0 <= a < b < new1.len() implies #[trigger] new1[a].end < #[trigger] new1[b].start by {
                        if b == new1.len() - 1 {
                            assert(new1[a] == new0[a]);
                            assert(new0[a].end <= pre.cap());
                            if a < new0.len() - 1 {
                                assert(new0[a].end < new0[new0.len() - 1].start);
                                assert(new0[new0.len() - 1].end <= pre.cap());
                            } else {
                                assert(new0[a] == ranges@[n - 1]);
                            }
                        } else {
                            assert(new0[a].end < new0[b].start);
                        }
                    }
                }
            }
        }
        proof {
            let new = ranges@.subrange(n0 as int, ranges@.len() as int);
            assert forall|i: int| #[trigger] covers(new, i) == ((pre.is_free(i) || (pre.cap() <= i < self.cap())) && !self.is_free(i)) by {
                if self.is_free(i) {
                    let j = choose|j: int| 0 <= j < self.ranges@.len() && (#[trigger] self.ranges@[j]).start <= i < self.ranges@[j].end;
                    assert(self.ranges@[j].end <= pre.cap());
                }
                if pre.is_free(i) {
                    let j = choose|j: int| 0 <= j < pre.ranges@.len() && (#[trigger] pre.ranges@[j]).start <= i < pre.ranges@[j].end;
                    assert(pre.ranges@[j].end <= pre.cap());
                }
            }
            assert forall|j: int| n0 <= j < ranges@.len() implies #[trigger] ranges@[j].end <= self.cap() by {
                assert(new[j - n0] == ranges@[j]);
            }
        }
    }

    /// Allocate `size` indices as [RangeAllocator::allocate_fragmented] does
    /// when the free indices suffice; otherwise change nothing and return how
    /// many indices are missing.
    pub fn try_allocate_fragmented(&mut self, size: usize, ranges: &mut Vec<Range<usize>>) -> (r: Result<(), usize>)
        requires
            old(self).wf(),
        ensures
            final(self).wf(),
            r is Ok <==> size <= old(self).free_len(),
            r matches Ok(_) ==> fragmented_alloc(*old(self), *final(self), size as nat, old(ranges)@, final(ranges)@)
                && final(self).cap() == old(self).cap(),
            r matches Err(d) ==> *final(self) == *old(self) && final(ranges)@ == old(ranges)@ && d == size - old(self).free_len(),
    {
        let available = self.available();
        if available < size {
            Err(size - available)
        } else {
            proof {
                lemma_separated_total_bound(self.ranges@, self.capacity);
            }
            self.allocate_fragmented(size, ranges);
            Ok(())
        }
    }

    /// Grow the index space by `size` free indices at its end.
    pub fn reserve(&mut self, size: usize)
        requires
            old(self).wf(),
            old(self).cap() + size <= usize::MAX,
        ensures
            final(self).wf(),
            final(self).cap() == old(self).cap() + size,
            final(self).free_len() == old(self).free_len() + size,
            forall|i: int| #[trigger]
                final(self).is_free(i) == (old(self).is_free(i) || (old(self).cap() <= i
                    < final(self).cap())),
    {
        if size == 0 {
            return;
        }
        let start = self.capacity;
        let ghost pre = self.ranges@;
        self.capacity = self.capacity + size;
        let range = Range { start, end: self.capacity };
        let n = self.ranges.len();
        proof {
            assert(fits_at(pre, n as int, range));
        }
        if n > 0 && self.ranges[n - 1].end == start {
            extend_prev(&mut self.ranges, n, range, Ghost(self.capacity));
        } else {
            insert_at(&mut self.ranges, n, range, Ghost(self.capacity));
        }
    }

    /// Grow the index space to at least `capacity` indices; the new indices
    /// are free.
    pub fn ensure_capacity(&mut self, capacity: usize)
        requires
            old(self).wf(),
        ensures
            final(self).wf(),
            final(self).cap() == (if capacity > old(self).cap() {
                capacity as nat
            } else {
                old(self).cap()
            }),
            forall|i: int| #[trigger]
                final(self).is_free(i) == (old(self).is_free(i) || (old(self).cap() <= i
                    < capacity)),
    {
        if capacity > self.capacity {
            let count = capacity - self.capacity;
            self.reserve(count);
        } else {
            proof {
                assert forall|i: int| #[trigger] self.is_free(i) implies i < self.capacity by {
                    let j = choose|j: int| 0 <= j < self.ranges@.len() && (#[trigger] self.ranges@[j]).start <= i < self.ranges@[j].end;
                    assert(self.ranges@[j].end <= self.capacity);
                }
            }
        }
    }

    /// The ranges of used indices, in ascending order: the gaps between the
    /// free ranges and the part after the last of them.
    pub fn used_ranges(&self) -> (r: Vec<Range<usize>>)
        requires
            self.wf(),
        ensures
            separated(r@),
            forall|i: int| #[trigger] covers(r@, i) == self.is_used(i),
            forall|j: int| 0 <= j < r@.len() ==> #[trigger] r@[j].end <= self.cap(),
    {
        let mut out: Vec<Range<usize>> = Vec::new();
        let mut last: usize = 0;
        let mut k: usize = 0;
        let n = self.ranges.len();
        while k < n
            invariant
                self.wf(),
                n == self.ranges@.len(),
                0 <= k <= n,
                last == (if k == 0 { 0 } else { self.ranges@[k - 1].end as int }),
                last <= self.capacity,
                separated(out@),
                k == 0 ==> out@.len() == 0,
                forall|j: int| 0 <= j < out@.len() ==> #[trigger] out@[j].end <= last,
                k > 0 ==> forall|j: int| 0 <= j < out@.len() ==> #[trigger] out@[j].end <= self.ranges@[k - 1].start,
                forall|i: int| 0 <= i < last ==> (#[trigger] covers(out@, i) == !covers(self.ranges@.subrange(0, k as int), i)),
                forall|i: int| i >= last ==> !#[trigger] covers(out@, i),
            decreases n - k,
        {
            let free = Range { start: self.ranges[k].start, end: self.ranges[k].end };
            let ghost old_out = out@;
            proof {
                if k > 0 {
                    assert(self.ranges@[k - 1].end < self.ranges@[k as int].start);
                }
                assert(self.ranges@.subrange(0, k + 1) =~= self.ranges@.subrange(0, k as int).push(free));
            }
            if last < free.start {
                out.push(Range { start: last, end: free.start });
                proof {
                    assert forall|a: int, b: int| 0 <= a < b < out@.len() implies #[trigger] out@[a].end < #[trigger] out@[b].start by {
                        if b == out@.len() - 1 {
                            assert(old_out[a].end <= self.ranges@[k - 1].start);
                            assert(self.ranges@[k - 1].start < self.ranges@[k - 1].end);
                        } else {
                            assert(old_out[a].end < old_out[b].start);
                        }
                    }
                }
            }
            proof {
                assert forall|i: int| 0 <= i < free.end implies (#[trigger] covers(out@, i) == !covers(self.ranges@.subrange(0, k + 1), i)) by {
                    lemma_covers_push(self.ranges@.subrange(0, k as int), free, i);
                    if last < free.start {
                        lemma_covers_push(old_out, Range { start: last, end: free.start }, i);
                    }
                    if i >= last && covers(self.ranges@.subrange(0, k as int), i) {
                        let j = choose|j: int| 0 <= j < k && (#[trigger] self.ranges@.subrange(0, k as int)[j]).start <= i < self.ranges@.subrange(0, k as int)[j].end;
                        assert(self.ranges@[j].end <= last);
                    }
                }
                assert forall|i: int| i >= free.end implies !#[trigger] covers(out@, i) by {
                    if last < free.start {
                        lemma_covers_push(old_out, Range { start: last, end: free.start }, i);
                    }
                }
            }
            last = free.end;
            k += 1;
        }
        if last < self.capacity {
            let ghost old_out = out@;
            out.push(Range { start: last, end: self.capacity });
            proof {
                assert forall|a: int, b: int| 0 <= a < b < out@.len() implies #[trigger] out@[a].end < #[trigger] out@[b].start by {
                    if b == out@.len() - 1 {
                        assert(old_out[a].end <= self.ranges@[k - 1].start);
                        assert(self.ranges@[k - 1].start < self.ranges@[k - 1].end);
                    } else {
                        assert(old_out[a].end < old_out[b].start);
                    }
                }
                assert forall|i: int| #[trigger] covers(out@, i) == (covers(old_out, i) || (last <= i < self.capacity)) by {
                    lemma_covers_push(old_out, Range { start: last, end: self.capacity }, i);
                }
            }
        }
        proof {
            assert(self.ranges@.subrange(0, n as int) =~= self.ranges@);
            assert forall|i: int| #[trigger] covers(out@, i) == self.is_used(i) by {
                if i >= last && covers(self.ranges@, i) {
                    let j = choose|j: int| 0 <= j < n && (#[trigger] self.ranges@[j]).start <= i < self.ranges@[j].end;
                    if k > 0 { assert(self.ranges@[j].end <= self.ranges@[n - 1].end); if j < n - 1 { assert(self.ranges@[j].end < self.ranges@[n - 1].start); } }
                }
                if i < 0 {
                    if covers(out@, i) {
                        let j = choose|j: int| 0 <= j < out@.len() && (#[trigger] out@[j]).start <= i < out@[j].end;
                    }
                }
            }
        }
        out
    }

    /// Return `range` to the allocator, merging it with the free ranges that
    /// touch it on either side. Every index of `range` must be in use.
    pub fn free(&mut self, range: Range<usize>)
        requires
            old(self).wf(),
            range.start <= range.end,
            forall|i: int| range.start <= i < range.end ==> old(self).is_used(i),
        ensures
            final(self).wf(),
            final(self).cap() == old(self).cap(),
            forall|i: int|
                #[trigger] final(self).is_free(i) == (old(self).is_free(i) || (range.start <= i
                    < range.end)),
    {
        if range.start == range.end {
            return;
        }
        let ghost pre = self.ranges@;
        let len = range.end - range.start;
        // the first free range that starts at or after the end of `range`
        let mut p: usize = 0;
        while p < self.ranges.len() && self.ranges[p].start < range.end
            invariant
                0 <= p <= self.ranges@.len(),
                self.ranges@ == pre,
                forall|j: int| 0 <= j < p ==> (#[trigger] pre[j]).start < range.end,
            decreases self.ranges@.len() - p,
        {
            p += 1;
        }
        proof {
            assert forall|j: int| 0 <= j < p implies (#[trigger] pre[j]).end <= range.start by {
                if pre[j].end > range.start {
                    let i = if pre[j].start > range.start { pre[j].start as int } else { range.start as int };
                    assert(pre[j].start <= i < pre[j].end);
                    assert(covers(pre, i));
                    assert(old(self).is_used(i));
                }
            }
            assert forall|j: int| p <= j < pre.len() implies (#[trigger] pre[j]).start >= range.end by {
                if j > p {
                    assert(pre[p as int].end < pre[j].start);
                }
            }
            assert(old(self).is_used(range.end - 1));
        }
        let n = self.ranges.len();
        let joins_prev = p > 0 && self.ranges[p - 1].end == range.start;
        let joins_next = p < n && self.ranges[p].start == range.end;
        if joins_prev && joins_next {
            merge_both(&mut self.ranges, p, range, Ghost(self.capacity));
        } else if joins_prev {
            extend_prev(&mut self.ranges, p, range, Ghost(self.capacity));
        } else if joins_next {
            extend_next(&mut self.ranges, p, range, Ghost(self.capacity));
        } else {
            insert_at(&mut self.ranges, p, range, Ghost(self.capacity));
        }
        proof {
            lemma_separated_total_bound(self.ranges@, self.capacity);
        }
        self.used = self.used - len;
    }
}

/// What [RangeAllocator::allocate_fragmented] does: `post` appends to `out0`
/// separated ranges of `size` indices in total, which are exactly the indices
/// that were free or lie in the new part of the index space and are free no
/// more; they all lie below every index still free; the index space grows by
/// what the free indices could not hold.
pub open spec fn fragmented_alloc(
    pre: RangeAllocator,
    post: RangeAllocator,
    size: nat,
    out0: Seq<Range<usize>>,
    out: Seq<Range<usize>>,
) -> bool {
    let new = out.subrange(out0.len() as int, out.len() as int);
    &&& out0.len() <= out.len()
    &&& out.subrange(0, out0.len() as int) == out0
    &&& separated(new)
    &&& total_len(new) == size
    &&& post.cap() == pre.cap() + (if size > pre.free_len() {
        size - pre.free_len()
    } else {
        0
    })
    &&& post.free_len() + size == pre.free_len() + (post.cap() - pre.cap())
    &&& forall|i: int| #[trigger] post.is_free(i) ==> pre.is_free(i)
    &&& forall|i: int| #[trigger]
        covers(new, i) == ((pre.is_free(i) || (pre.cap() <= i < post.cap())) && !post.is_free(i))
    &&& forall|i: int, k: int| #[trigger] covers(new, i) && #[trigger] post.is_free(k) ==> i < k
    &&& forall|j: int| out0.len() <= j < out.len() ==> #[trigger] out[j].end <= post.cap()
}

/// The set of used indices of a well-formed allocator is finite, and holds
/// the capacity less the free length.
pub proof fn lemma_used_len(a: &RangeAllocator)
    requires
        a.wf(),
    ensures
        Set::new(|i: int| a.is_used(i)).finite(),
        Set::new(|i: int| a.is_used(i)).len() == a.cap() - a.free_len(),
{
    let f = crate::ranges::covered_set(a.free_view());
    crate::ranges::lemma_covered_len(a.free_view());
    let whole = vstd::set_lib::set_int_range(0, a.cap() as int);
    vstd::set_lib::lemma_int_range(0, a.cap() as int);
    let u = Set::new(|i: int| a.is_used(i));
    assert(f.subset_of(whole)) by {
        assert forall|i: int| f.contains(i) implies whole.contains(i) by {
            let j = choose|j: int| 0 <= j < a.free_view().len() && (#[trigger] a.free_view()[j]).start <= i < a.free_view()[j].end;
            a.lemma_wf();
        }
    }
    assert(u.subset_of(whole));
    vstd::set_lib::lemma_len_subset(u, whole);
    assert(whole =~= u + f);
    assert(u.disjoint(f));
    vstd::set_lib::lemma_set_disjoint_lens(u, f);
}

/// An allocator with no free length has no free index.
pub proof fn lemma_no_free(a: &RangeAllocator)
    requires
        a.wf(),
        a.free_len() == 0,
    ensures
        forall|i: int| !#[trigger] a.is_free(i),
        forall|i: int| 0 <= i < a.cap() ==> #[trigger] a.is_used(i),
{
    crate::ranges::lemma_total_len_at_least(a.free_view());
}

/// Once every index of a non-empty index space is free, there is exactly one
/// free range, and it spans the whole space: whatever the order in which
/// disjoint ranges covering `[0, capacity)` are freed, they coalesce into
/// one.
pub proof fn lemma_all_free_is_one_range(a: &RangeAllocator)
    requires
        a.wf(),
        a.cap() > 0,
        forall|i: int| 0 <= i < a.cap() ==> #[trigger] a.is_free(i),
    ensures
        a.free_view() == seq![Range { start: 0usize, end: a.cap() as usize }],
{
    let s = a.free_view();
    assert(a.is_free(0));
    if s.len() >= 2 {
        let i = s[0].end as int;
        assert(s[0].end < s[1].start);
        assert(s[1].end <= a.cap());
        assert(a.is_free(i));
        let j = choose|j: int| 0 <= j < s.len() && (#[trigger] s[j]).start <= i < s[j].end;
        if j > 1 {
            assert(s[1].start < s[j].start) by {
                assert(s[1].end < s[j].start);
            }
        }
    }
    let j0 = choose|j: int| 0 <= j < s.len() && (#[trigger] s[j]).start <= 0 < s[j].end;
    assert(s.len() == 1);
    assert(a.is_free(a.cap() - 1));
    assert(s[0].end <= a.cap());
    assert(s =~= seq![Range { start: 0usize, end: a.cap() as usize }]);
}

} // verus!
