//! A column of fixed-size records of one component kind.

use crate::components::{copy_bytes, ComponentId, ComponentType};
use crate::ranges::{covers, lemma_covers_push};
use std::ops::Range;
use vstd::prelude::*;

verus! {

/// A column holding one record per slot, all of the size of its kind's
/// default record. The column does not know which slots are live; its
/// archetype does.
pub struct AnyBuffer {
    type_id: ComponentId,
    default_value: Vec<u8>,
    values: Vec<Vec<u8>>,
}

impl AnyBuffer {
    /// The component kind that the column holds.
    pub closed spec fn kind(&self) -> ComponentId {
        self.type_id
    }

    /// The kind's default record.
    pub closed spec fn default_record(&self) -> Seq<u8> {
        self.default_value@
    }

    /// The records, one per slot.
    pub closed spec fn records(&self) -> Seq<Seq<u8>> {
        self.values@.map_values(|v: Vec<u8>| v@)
    }

    /// Every record has the size of the default record.
    pub closed spec fn wf(&self) -> bool {
        forall|k: int| 0 <= k < self.values@.len() ==> (#[trigger] self.values@[k])@.len() == self.default_value@.len()
    }

    /// A column for `ty` with `capacity` slots, each holding the default record.
    pub fn with_capacity(ty: &ComponentType, capacity: usize) -> (r: Self)
        ensures
            r.wf(),
            r.kind() == ty.spec_id(),
            r.default_record() == ty.spec_default(),
            r.records() == Seq::new(capacity as nat, |k: int| ty.spec_default()),
    {
        let mut r = AnyBuffer {
            type_id: ty.id(),
            default_value: copy_bytes(ty.default_value()),
            values: Vec::new(),
        };
        r.ensure_capacity(capacity);
        assert(r.records() =~= Seq::new(capacity as nat, |k: int| ty.spec_default()));
        r
    }

    /// A column for `ty` with one slot.
    pub fn new(ty: &ComponentType) -> (r: Self)
        ensures
            r.wf(),
            r.kind() == ty.spec_id(),
            r.default_record() == ty.spec_default(),
            r.records() == seq![ty.spec_default()],
    {
        let r = Self::with_capacity(ty, 1);
        assert(r.records() =~= seq![ty.spec_default()]);
        r
    }

    /// Grow the column to at least `capacity` slots; the records already held
    /// stay, and new slots hold the default record.
    pub fn ensure_capacity(&mut self, capacity: usize)
        requires
            old(self).wf(),
        ensures
            final(self).wf(),
            final(self).kind() == old(self).kind(),
            final(self).default_record() == old(self).default_record(),
            final(self).records() == (if old(self).records().len() < capacity {
                old(self).records() + Seq::new(
                    (capacity - old(self).records().len()) as nat,
                    |k: int| old(self).default_record(),
                )
            } else {
                old(self).records()
            }),
    {
        let ghost pre = self.records();
        let start = self.values.len();
        while self.values.len() < capacity
            invariant
                self.wf(),
                self.kind() == old(self).kind(),
                self.default_record() == old(self).default_record(),
                start == pre.len(),
                start <= capacity ==> self.values@.len() <= capacity,
                start > capacity ==> self.values@.len() == start,
                self.values@.len() >= start,
                self.records() =~= pre + Seq::new(
                    (self.values@.len() - start) as nat,
                    |k: int| old(self).default_record(),
                ),
            decreases capacity - self.values@.len(),
        {
            let record = copy_bytes(self.default_value.as_slice());
            let ghost before = self.records();
            self.values.push(record);
            assert(self.records() =~= before.push(record@));
        }
        assert(self.records() =~= (if pre.len() < capacity {
            pre + Seq::new((capacity - pre.len()) as nat, |k: int| old(self).default_record())
        } else {
            pre
        }));
    }

    /// Set every slot of `range` to the default record.
    pub fn default_values(&mut self, range: Range<usize>)
        requires
            old(self).wf(),
            range.start <= range.end <= old(self).records().len(),
        ensures
            final(self).wf(),
            final(self).kind() == old(self).kind(),
            final(self).default_record() == old(self).default_record(),
            final(self).records().len() == old(self).records().len(),
            forall|k: int| 0 <= k < old(self).records().len() ==> #[trigger] final(self).records()[k] == if range.start <= k < range.end {
                old(self).default_record()
            } else {
                old(self).records()[k]
            },
    {
        let mut k = range.start;
        while k < range.end
            invariant
                self.wf(),
                range.start <= k <= range.end <= self.values@.len(),
                self.kind() == old(self).kind(),
                self.default_record() == old(self).default_record(),
                self.records().len() == old(self).records().len(),
                forall|j: int| 0 <= j < old(self).records().len() ==> #[trigger] self.records()[j] == if range.start <= j < k {
                    old(self).default_record()
                } else {
                    old(self).records()[j]
                },
            decreases range.end - k,
        {
            let record = copy_bytes(self.default_value.as_slice());
            let ghost before = self.records();
            self.values.set(k, record);
            assert(self.records() =~= before.update(k as int, record@));
            k += 1;
        }
    }

    /// Set every slot that one of `ranges` holds to the default record.
    pub fn default_ranges(&mut self, ranges: &[Range<usize>])
        requires
            old(self).wf(),
            forall|j: int| 0 <= j < ranges@.len() ==> (#[trigger] ranges@[j]).start <= ranges@[j].end <= old(self).records().len(),
        ensures
            final(self).wf(),
            final(self).kind() == old(self).kind(),
            final(self).default_record() == old(self).default_record(),
            final(self).records().len() == old(self).records().len(),
            forall|k: int| 0 <= k < old(self).records().len() ==> #[trigger] final(self).records()[k] == if covers(ranges@, k) {
                old(self).default_record()
            } else {
                old(self).records()[k]
            },
    {
        let mut n: usize = 0;
        while n < ranges.len()
            invariant
                0 <= n <= ranges@.len(),
                self.wf(),
                forall|j: int| 0 <= j < ranges@.len() ==> (#[trigger] ranges@[j]).start <= ranges@[j].end <= old(self).records().len(),
                self.kind() == old(self).kind(),
                self.default_record() == old(self).default_record(),
                self.records().len() == old(self).records().len(),
                forall|k: int| 0 <= k < old(self).records().len() ==> #[trigger] self.records()[k] == if covers(ranges@.subrange(0, n as int), k) {
                    old(self).default_record()
                } else {
                    old(self).records()[k]
                },
            decreases ranges@.len() - n,
        {
            let r = Range { start: ranges[n].start, end: ranges[n].end };
            self.default_values(r);
            proof {
                assert(ranges@.subrange(0, n + 1) =~= ranges@.subrange(0, n as int).push(ranges@[n as int]));
                assert forall|k: int| 0 <= k < old(self).records().len() implies #[trigger] self.records()[k] == if covers(ranges@.subrange(0, n + 1), k) {
                    old(self).default_record()
                } else {
                    old(self).records()[k]
                } by {
                    lemma_covers_push(ranges@.subrange(0, n as int), ranges@[n as int], k);
                }
            }
            n += 1;
        }
        assert(ranges@.subrange(0, ranges@.len() as int) =~= ranges@);
    }

    /// Copy the records of `range` into `dst` from slot `dst_offset` on. Both
    /// columns hold the same kind.
    pub fn copy_values(&self, dst: &mut AnyBuffer, range: Range<usize>, dst_offset: usize)
        requires
            self.wf(),
            old(dst).wf(),
            self.kind().spec_value() == old(dst).kind().spec_value(),
            self.default_record().len() == old(dst).default_record().len(),
            range.start <= range.end <= self.records().len(),
            dst_offset + (range.end - range.start) <= old(dst).records().len(),
        ensures
            final(dst).wf(),
            final(dst).kind() == old(dst).kind(),
            final(dst).default_record() == old(dst).default_record(),
            final(dst).records().len() == old(dst).records().len(),
            forall|k: int| 0 <= k < old(dst).records().len() ==> #[trigger] final(dst).records()[k] == if dst_offset <= k < dst_offset + (range.end - range.start) {
                self.records()[range.start + k - dst_offset]
            } else {
                old(dst).records()[k]
            },
    {
        let mut k = range.start;
        while k < range.end
            invariant
                self.wf(),
                dst.wf(),
                range.start <= k <= range.end <= self.values@.len(),
                dst_offset + (range.end - range.start) <= dst.values@.len(),
                dst.kind() == old(dst).kind(),
                dst.default_record() == old(dst).default_record(),
                self.default_record().len() == dst.default_record().len(),
                dst.records().len() == old(dst).records().len(),
                forall|j: int| 0 <= j < old(dst).records().len() ==> #[trigger] dst.records()[j] == if dst_offset <= j < dst_offset + (k - range.start) {
                    self.records()[range.start + j - dst_offset]
                } else {
                    old(dst).records()[j]
                },
            decreases range.end - k,
        {
            let record = copy_bytes(self.values[k].as_slice());
            let _dst_len = dst.values.len();
            let at = dst_offset + (k - range.start);
            let ghost before = dst.records();
            dst.values.set(at, record);
            assert(dst.records() =~= before.update(at as int, record@));
            assert(record@ == self.records()[k as int]);
            k += 1;
        }
    }

    /// The record at `slot`.
    pub fn get(&self, slot: usize) -> (r: &[u8])
        requires
            slot < self.records().len(),
        ensures
            r@ == self.records()[slot as int],
    {
        self.values[slot].as_slice()
    }

    /// Overwrite the record at `slot`; `value` has the kind's record size.
    pub fn set(&mut self, slot: usize, value: &[u8])
        requires
            old(self).wf(),
            slot < old(self).records().len(),
            value@.len() == old(self).default_record().len(),
        ensures
            final(self).wf(),
            final(self).kind() == old(self).kind(),
            final(self).default_record() == old(self).default_record(),
            final(self).records() == old(self).records().update(slot as int, value@),
    {
        self.values.set(slot, copy_bytes(value));
        assert(self.records() =~= old(self).records().update(slot as int, value@));
    }

    /// The kind's identifier.
    pub fn kind_id(&self) -> (r: ComponentId)
        ensures
            r == self.kind(),
    {
        self.type_id
    }

    /// The kind's record size in bytes.
    pub fn record_size(&self) -> (r: usize)
        ensures
            r == self.default_record().len(),
    {
        self.default_value.len()
    }

    /// The number of slots.
    pub fn capacity(&self) -> (r: usize)
        ensures
            r == self.records().len(),
    {
        self.values.len()
    }
}

} // verus!
