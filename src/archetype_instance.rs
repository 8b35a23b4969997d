//! The columnar table of one archetype.

use crate::any_buffer::AnyBuffer;
use crate::bit_field::BitField;
use crate::components::{has_repeats, id_set, type_ids, ComponentId, ComponentType};
use crate::entity::Entity;
use crate::range_allocator::{fragmented_alloc, RangeAllocator};
use crate::ranges::{covers, lemma_covers_push};
use std::ops::Range;
use vstd::prelude::*;

verus! {

/// The largest number of slots an archetype's table may have.
pub const MAX_CAPACITY: usize = 0x3FFF_FFFF;

/// A registry-relative handle to an archetype: a distinct set of component
/// kinds.
#[derive(Clone, Copy, PartialEq, Eq, Structural, Debug, Hash)]
pub struct Archetype {
    /// The archetype's position in its store.
    pub index: usize,
}

/// The position in `kinds` of `id`.
pub open spec fn index_of_kind(kinds: Seq<nat>, id: nat) -> int {
    choose|k: int| 0 <= k < kinds.len() && kinds[k] == id
}

/// The position of the column of kind `id` among `buffers`, whose kinds are
/// distinct.
fn column_index(buffers: &Vec<AnyBuffer>, id: ComponentId) -> (r: Option<usize>)
    requires
        forall|a: int, b: int| 0 <= a < b < buffers@.len() ==> (#[trigger] buffers@[a]).kind().spec_value() != (#[trigger] buffers@[b]).kind().spec_value(),
    ensures
        r is None ==> forall|j: int| 0 <= j < buffers@.len() ==> (#[trigger] buffers@[j]).kind().spec_value() != id.spec_value(),
        r matches Some(k) ==> k < buffers@.len() && buffers@[k as int].kind().spec_value() == id.spec_value(),
{
    let mut k: usize = 0;
    while k < buffers.len()
        invariant
            0 <= k <= buffers@.len(),
            forall|j: int| 0 <= j < k ==> (#[trigger] buffers@[j]).kind().spec_value() != id.spec_value(),
        decreases buffers@.len() - k,
    {
        if buffers[k].kind_id().value() == id.value() {
            return Some(k);
        }
        k += 1;
    }
    None
}

/// The table of one archetype: one column per component kind, an allocator
/// of slots, and for each slot the entity that owns it.
pub struct ArchetypeInstance {
    id: Archetype,
    bitfield: BitField,
    entities: Vec<Entity>,
    allocator: RangeAllocator,
    component_bitfield: BitField,
    components: Vec<ComponentType>,
    buffers: Vec<AnyBuffer>,
}

impl ArchetypeInstance {
    /// The archetype's handle.
    pub closed spec fn spec_id(&self) -> Archetype {
        self.id
    }

    /// The numbers of the component kinds of the archetype.
    pub closed spec fn kinds(&self) -> Set<nat> {
        self.component_bitfield@
    }

    /// The identifiers of the component kinds, one per column, in column
    /// order.
    pub closed spec fn component_ids(&self) -> Seq<ComponentId> {
        type_ids(self.components@)
    }

    /// The slot allocator.
    pub closed spec fn slots(&self) -> RangeAllocator {
        self.allocator
    }

    /// The number of slots.
    pub open spec fn cap(&self) -> nat {
        self.slots().cap()
    }

    /// The entity recorded at each slot.
    pub closed spec fn entity_seq(&self) -> Seq<Entity> {
        self.entities@
    }

    /// The kind of each column, in column order.
    pub closed spec fn column_kinds(&self) -> Seq<nat> {
        self.buffers@.map_values(|b: AnyBuffer| b.kind().spec_value())
    }

    /// The records of each column, in column order.
    pub closed spec fn columns(&self) -> Seq<Seq<Seq<u8>>> {
        self.buffers@.map_values(|b: AnyBuffer| b.records())
    }

    /// The default record of each column, in column order.
    pub closed spec fn defaults(&self) -> Seq<Seq<u8>> {
        self.buffers@.map_values(|b: AnyBuffer| b.default_record())
    }

    /// The record of kind `id` at `slot`.
    pub open spec fn value(&self, id: nat, slot: int) -> Seq<u8> {
        self.columns()[index_of_kind(self.column_kinds(), id)][slot]
    }

    /// The default record of kind `id`.
    pub open spec fn default_of(&self, id: nat) -> Seq<u8> {
        self.defaults()[index_of_kind(self.column_kinds(), id)]
    }

    /// The record size of kind `id`.
    pub open spec fn record_size(&self, id: nat) -> nat {
        self.default_of(id).len()
    }

    /// `self` and `other` have the same handle, kinds and columns layout
    /// (what their columns hold may differ).
    pub open spec fn same_layout(&self, other: &Self) -> bool {
        &&& self.spec_id() == other.spec_id()
        &&& self.kinds() == other.kinds()
        &&& self.component_ids() == other.component_ids()
        &&& self.column_kinds() == other.column_kinds()
        &&& self.defaults() == other.defaults()
    }

    /// The table's invariant: every column, the entity list and the slot
    /// allocator have the same capacity; one column per kind.
    pub closed spec fn wf(&self) -> bool {
        self.wf_at(self.allocator.cap())
    }

    /// The invariant, but with the columns and the entity list at capacity
    /// `cap`, which the allocator may not have reached yet.
    closed spec fn wf_at(&self, cap: nat) -> bool {
        &&& self.allocator.wf()
        &&& cap <= MAX_CAPACITY
        &&& self.allocator.cap() <= cap
        &&& self.bitfield.wf()
        &&& self.bitfield.cap() >= cap
        &&& self.component_bitfield.wf()
        &&& self.entities@.len() == cap
        &&& forall|k: int| 0 <= k < self.buffers@.len() ==> (#[trigger] self.buffers@[k]).wf()
            && self.buffers@[k].records().len() == cap
        &&& forall|a: int, b: int| 0 <= a < b < self.buffers@.len() ==> (#[trigger] self.buffers@[a]).kind().spec_value() != (#[trigger] self.buffers@[b]).kind().spec_value()
        &&& forall|k: int| 0 <= k < self.buffers@.len() ==> self.component_bitfield@.contains((#[trigger] self.buffers@[k]).kind().spec_value())
        &&& forall|id: nat| #[trigger] self.component_bitfield@.contains(id) ==> self.column_kinds().contains(id)
        &&& self.component_bitfield@ == id_set(type_ids(self.components@))
        &&& forall|k: int| 0 <= k < self.components@.len() ==> (#[trigger] self.components@[k]).spec_id().valid()
        &&& self.components@.len() == self.buffers@.len()
        &&& forall|k: int| 0 <= k < self.components@.len() ==> (#[trigger] self.components@[k]).spec_id().spec_value() == self.buffers@[k].kind().spec_value() && self.components@[k].spec_default() == self.buffers@[k].default_record()
    }

    /// A table for the kinds of `components` with `capacity` free slots; a
    /// kind listed twice gets one column, made from its first listing.
    pub fn with_capacity(id: Archetype, components: &[ComponentType], capacity: usize) -> (r: Self)
        requires
            forall|k: int| 0 <= k < components@.len() ==> (#[trigger] components@[k]).spec_id().valid(),
            capacity <= MAX_CAPACITY,
        ensures
            r.wf(),
            r.spec_id() == id,
            r.kinds() == id_set(type_ids(components@)),
            r.cap() == capacity,
            forall|i: int| 0 <= i < capacity ==> #[trigger] r.slots().is_free(i),
            forall|c: nat| #[trigger] r.kinds().contains(c) ==> exists|k: int| 0 <= k < components@.len() && (#[trigger] components@[k]).spec_id().spec_value() == c && r.default_of(c) == components@[k].spec_default(),
    {
        let mut component_bitfield = BitField::new();
        let mut buffers: Vec<AnyBuffer> = Vec::new();
        let mut list: Vec<ComponentType> = Vec::new();
        let mut k: usize = 0;
        while k < components.len()
            invariant
                0 <= k <= components@.len(),
                forall|j: int| 0 <= j < components@.len() ==> (#[trigger] components@[j]).spec_id().valid(),
                component_bitfield.wf(),
                list@.len() == buffers@.len(),
                forall|j: int| 0 <= j < list@.len() ==> (#[trigger] list@[j]).spec_id().valid() && list@[j].spec_id().spec_value() == buffers@[j].kind().spec_value() && list@[j].spec_default() == buffers@[j].default_record(),
                forall|j: int| #![trigger buffers@[j]] 0 <= j < buffers@.len() ==> exists|x: int| 0 <= x < components@.len() && (#[trigger] components@[x]).spec_id().spec_value() == buffers@[j].kind().spec_value() && buffers@[j].default_record() == components@[x].spec_default(),
                component_bitfield@ == id_set(type_ids(components@.subrange(0, k as int))),
                forall|j: int| 0 <= j < buffers@.len() ==> (#[trigger] buffers@[j]).wf() && buffers@[j].records().len() == capacity,
                forall|a: int, b: int| 0 <= a < b < buffers@.len() ==> (#[trigger] buffers@[a]).kind().spec_value() != (#[trigger] buffers@[b]).kind().spec_value(),
                forall|j: int| 0 <= j < buffers@.len() ==> component_bitfield@.contains((#[trigger] buffers@[j]).kind().spec_value()),
                forall|v: nat| #[trigger] component_bitfield@.contains(v) ==> exists|j: int| 0 <= j < buffers@.len() && (#[trigger] buffers@[j]).kind().spec_value() == v,
            decreases components@.len() - k,
        {
            let t = &components[k];
            let v = t.id().value();
            let ghost prefix = type_ids(components@.subrange(0, k as int));
            let ghost next = type_ids(components@.subrange(0, k + 1));
            proof {
                assert(components@[k as int].spec_id().valid());
                assert(next =~= prefix.push(components@[k as int].spec_id()));
            }
            if !component_bitfield.get(v) {
                let buffer = AnyBuffer::with_capacity(t, capacity);
                let ghost old_buffers = buffers@;
                let ghost old_list = list@;
                buffers.push(buffer);
                list.push(t.duplicate());
                component_bitfield.set(v, true);
                proof {
                    assert forall|a: int, b: int| 0 <= a < b < buffers@.len() implies (#[trigger] buffers@[a]).kind().spec_value() != (#[trigger] buffers@[b]).kind().spec_value() by {
                        if b == buffers@.len() - 1 {
                            assert(old_buffers[a] == buffers@[a]);
                        }
                    }
                    assert forall|x: nat| #[trigger] component_bitfield@.contains(x) implies exists|j: int| 0 <= j < buffers@.len() && (#[trigger] buffers@[j]).kind().spec_value() == x by {
                        if x == v {
                            assert(buffers@[buffers@.len() - 1].kind().spec_value() == x);
                        } else {
                            let j = choose|j: int| 0 <= j < old_buffers.len() && (#[trigger] old_buffers[j]).kind().spec_value() == x;
                            assert(buffers@[j] == old_buffers[j]);
                        }
                    }
                    assert forall|j: int| 0 <= j < buffers@.len() implies component_bitfield@.contains((#[trigger] buffers@[j]).kind().spec_value()) by {
                        if j < old_buffers.len() { assert(buffers@[j] == old_buffers[j]); }
                    }
                    assert forall|j: int| 0 <= j < list@.len() implies (#[trigger] list@[j]).spec_id().valid() && list@[j].spec_id().spec_value() == buffers@[j].kind().spec_value() && list@[j].spec_default() == buffers@[j].default_record() by {
                        if j < old_list.len() { assert(list@[j] == old_list[j] && buffers@[j] == old_buffers[j]); }
                    }
                    assert forall|j: int| #![trigger buffers@[j]] 0 <= j < buffers@.len() implies exists|x: int| 0 <= x < components@.len() && (#[trigger] components@[x]).spec_id().spec_value() == buffers@[j].kind().spec_value() && buffers@[j].default_record() == components@[x].spec_default() by {
                        if j < old_buffers.len() { assert(buffers@[j] == old_buffers[j]); }
                        else { assert(components@[k as int].spec_id().spec_value() == buffers@[j].kind().spec_value()); }
                    }
                }
            }
            proof {
                assert forall|x: nat| #[trigger] component_bitfield@.contains(x) == id_set(next).contains(x) by {
                    if x == v {
                        assert(next[k as int].spec_value() == x);
                    }
                    if id_set(next).contains(x) {
                        let j = choose|j: int| 0 <= j < next.len() && (#[trigger] next[j]).spec_value() == x;
                        if j < prefix.len() {
                            assert(prefix[j] == next[j]);
                        }
                    }
                    if id_set(prefix).contains(x) {
                        let j = choose|j: int| 0 <= j < prefix.len() && (#[trigger] prefix[j]).spec_value() == x;
                        assert(prefix[j] == next[j]);
                    }
                }
                assert(component_bitfield@ =~= id_set(next));
            }
            k += 1;
        }
        proof {
            assert(components@.subrange(0, components@.len() as int) =~= components@);
        }
        let mut entities: Vec<Entity> = Vec::new();
        let mut n: usize = 0;
        while n < capacity
            invariant
                n <= capacity,
                entities@.len() == n,
            decreases capacity - n,
        {
            entities.push(Entity::null());
            n += 1;
        }
        let r = ArchetypeInstance {
            id,
            bitfield: BitField::with_capacity(capacity),
            entities,
            allocator: RangeAllocator::with_capacity(capacity),
            component_bitfield,
            components: list,
            buffers,
        };
        proof {
            assert forall|x: nat| #[trigger] id_set(type_ids(list@)).contains(x) == r.component_bitfield@.contains(x) by {
                if id_set(type_ids(list@)).contains(x) {
                    let j = choose|j: int| 0 <= j < type_ids(list@).len() && (#[trigger] type_ids(list@)[j]).spec_value() == x;
                    assert(list@[j].spec_id() == type_ids(list@)[j]);
                    assert(r.component_bitfield@.contains(r.buffers@[j].kind().spec_value()));
                }
                if r.component_bitfield@.contains(x) {
                    let j = choose|j: int| 0 <= j < r.buffers@.len() && (#[trigger] r.buffers@[j]).kind().spec_value() == x;
                    assert(type_ids(list@)[j] == list@[j].spec_id());
                }
            }
            assert(id_set(type_ids(list@)) =~= r.component_bitfield@);
            assert forall|id: nat| #[trigger] r.component_bitfield@.contains(id) implies r.column_kinds().contains(id) by {
                let j = choose|j: int| 0 <= j < r.buffers@.len() && (#[trigger] r.buffers@[j]).kind().spec_value() == id;
                assert(r.column_kinds()[j] == id);
            }
            assert forall|c: nat| #[trigger] r.kinds().contains(c) implies exists|k: int| 0 <= k < components@.len() && (#[trigger] components@[k]).spec_id().spec_value() == c && r.default_of(c) == components@[k].spec_default() by {
                assert(r.column_kinds().contains(c));
                let j = index_of_kind(r.column_kinds(), c);
                assert(r.column_kinds()[j] == c);
                assert(r.defaults()[j] == r.buffers@[j].default_record());
                assert(r.buffers@[j].kind().spec_value() == c);
            }
            if capacity > 0 {
                assert forall|i: int| 0 <= i < capacity implies #[trigger] r.slots().is_free(i) by {
                    assert(r.allocator.free_view()[0] == Range { start: 0usize, end: capacity });
                }
            }
        }
        r
    }

    /// Capacity coherence: every column, the entity list and the slot
    /// allocator of a well-formed table have the same capacity, and the used
    /// and free slots add up to it.
    pub proof fn lemma_wf(&self)
        requires
            self.wf(),
        ensures
            self.entity_seq().len() == self.cap(),
            self.columns().len() == self.column_kinds().len(),
            forall|k: int| 0 <= k < self.columns().len() ==> (#[trigger] self.columns()[k]).len() == self.cap(),
            self.slots().wf(),
            self.slots().free_len() <= self.cap(),
            self.cap() <= MAX_CAPACITY,
            forall|c: nat| #[trigger] self.kinds().contains(c) ==> self.column_kinds().contains(c) && self.column_kinds()[index_of_kind(self.column_kinds(), c)] == c,
    {
        self.allocator.lemma_wf();
        assert forall|k: int| 0 <= k < self.columns().len() implies (#[trigger] self.columns()[k]).len() == self.cap() by {
            assert(self.columns()[k] == self.buffers@[k].records());
        }
    }

    /// An empty table for the kinds of `components`.
    pub fn new(id: Archetype, components: &[ComponentType]) -> (r: Self)
        requires
            forall|k: int| 0 <= k < components@.len() ==> (#[trigger] components@[k]).spec_id().valid(),
        ensures
            r.wf(),
            r.spec_id() == id,
            r.kinds() == id_set(type_ids(components@)),
            r.cap() == 0,
    {
        Self::with_capacity(id, components, 0)
    }

    /// Whether every kind of `set` is a kind of this archetype.
    pub fn matches_query(&self, set: &BitField) -> (r: bool)
        ensures
            r == set@.subset_of(self.kinds()),
    {
        set.is_subset_of(&self.component_bitfield)
    }

    /// The archetype's handle.
    pub fn id(&self) -> (r: Archetype)
        ensures
            r == self.spec_id(),
    {
        self.id
    }

    /// The kinds as they were listed when the table was made.
    pub fn components(&self) -> (r: &[ComponentType])
        requires
            self.wf(),
        ensures
            type_ids(r@) == self.component_ids(),
            id_set(type_ids(r@)) == self.kinds(),
            !has_repeats(type_ids(r@)),
            forall|k: int| 0 <= k < r@.len() ==> (#[trigger] r@[k]).spec_id().valid() && r@[k].spec_default() == self.default_of(r@[k].spec_id().spec_value()),
    {
        let r = self.components.as_slice();
        proof {
            assert forall|k: int| 0 <= k < r@.len() implies (#[trigger] r@[k]).spec_id().valid() && r@[k].spec_default() == self.default_of(r@[k].spec_id().spec_value()) by {
                let c = r@[k].spec_id().spec_value();
                assert(self.column_kinds()[k] == c);
                let j = index_of_kind(self.column_kinds(), c);
                assert(self.column_kinds()[j] == c);
                if j != k {
                    if j < k { assert(self.buffers@[j].kind().spec_value() != self.buffers@[k].kind().spec_value()); }
                    else { assert(self.buffers@[k].kind().spec_value() != self.buffers@[j].kind().spec_value()); }
                }
                assert(self.defaults()[k] == self.buffers@[k].default_record());
            }
            if has_repeats(type_ids(r@)) {
                let (a, b) = choose|a: int, b: int| 0 <= a < b < type_ids(r@).len() && (#[trigger] type_ids(r@)[a]).spec_value() == (#[trigger] type_ids(r@)[b]).spec_value();
                assert(type_ids(r@)[a] == r@[a].spec_id());
                assert(type_ids(r@)[b] == r@[b].spec_id());
                assert(self.buffers@[a].kind().spec_value() != self.buffers@[b].kind().spec_value());
            }
        }
        r
    }

    /// The bit field of the archetype's kinds.
    pub fn component_bitfield(&self) -> (r: &BitField)
        requires
            self.wf(),
        ensures
            r@ == self.kinds(),
            r.wf(),
    {
        &self.component_bitfield
    }

    /// The slot allocator.
    pub fn allocator(&self) -> (r: &RangeAllocator)
        ensures
            *r == self.slots(),
    {
        &self.allocator
    }

    /// The entity recorded at each slot.
    pub fn entities(&self) -> (r: &[Entity])
        ensures
            r@ == self.entity_seq(),
    {
        self.entities.as_slice()
    }

    /// Record `entity` as the owner of `slot`.
    pub fn set_entity(&mut self, slot: usize, entity: Entity)
        requires
            old(self).wf(),
            slot < old(self).cap(),
        ensures
            final(self).wf(),
            final(self).same_layout(old(self)),
            final(self).slots() == old(self).slots(),
            final(self).columns() == old(self).columns(),
            final(self).entity_seq() == old(self).entity_seq().update(slot as int, entity),
    {
        self.entities.set(slot, entity);
    }

    /// The ranges of live slots, in ascending order.
    pub fn used_ranges(&self) -> (r: Vec<Range<usize>>)
        requires
            self.wf(),
        ensures
            crate::ranges::separated(r@),
            forall|i: int| #[trigger] covers(r@, i) == self.slots().is_used(i),
            forall|j: int| 0 <= j < r@.len() ==> #[trigger] r@[j].end <= self.cap(),
    {
        self.allocator.used_ranges()
    }

    /// The record of kind `id` at `slot`, or `None` when the archetype does
    /// not have that kind.
    pub fn get_component(&self, id: ComponentId, slot: usize) -> (r: Option<&[u8]>)
        requires
            self.wf(),
            slot < self.cap(),
        ensures
            r is Some <==> self.kinds().contains(id.spec_value()),
            r matches Some(v) ==> v@ == self.value(id.spec_value(), slot as int),
    {
        match self.find_column(id) {
            None => None,
            Some(k) => {
                proof {
                    assert(self.columns()[k as int] == self.buffers@[k as int].records());
                }
                Some(self.buffers[k].get(slot))
            },
        }
    }

    /// The record size of kind `id`, or `None` when the archetype does not
    /// have that kind.
    pub fn component_size(&self, id: ComponentId) -> (r: Option<usize>)
        requires
            self.wf(),
        ensures
            r is Some <==> self.kinds().contains(id.spec_value()),
            r matches Some(n) ==> n == self.record_size(id.spec_value()),
    {
        match self.find_column(id) {
            None => None,
            Some(k) => {
                proof {
                    assert(self.defaults()[k as int] == self.buffers@[k as int].default_record());
                }
                Some(self.buffers[k].record_size())
            },
        }
    }

    /// Overwrite the record of kind `id` at `slot` with `value`; `false`,
    /// with nothing changed, when the archetype does not have that kind or
    /// `value` does not have its record size.
    pub fn set_component(&mut self, id: ComponentId, slot: usize, value: &[u8]) -> (r: bool)
        requires
            old(self).wf(),
            slot < old(self).cap(),
        ensures
            final(self).wf(),
            final(self).same_layout(old(self)),
            final(self).slots() == old(self).slots(),
            final(self).entity_seq() == old(self).entity_seq(),
            r == (old(self).kinds().contains(id.spec_value()) && value@.len() == old(self).record_size(id.spec_value())),
            forall|c: nat, i: int| old(self).kinds().contains(c) && 0 <= i < old(self).cap() ==> #[trigger] final(self).value(c, i) == if r && c == id.spec_value() && i == slot {
                value@
            } else {
                old(self).value(c, i)
            },
    {
        match self.find_column(id) {
            None => false,
            Some(k) => {
                proof {
                    assert(self.defaults()[k as int] == self.buffers@[k as int].default_record());
                }
                if self.buffers[k].record_size() != value.len() {
                    return false;
                }
                let ghost pre = *self;
                self.buffers[k].set(slot, value);
                proof {
                    assert(self.buffers@ == pre.buffers@.update(k as int, self.buffers@[k as int]));
                    assert(self.column_kinds() =~= pre.column_kinds());
                    assert(self.defaults() =~= pre.defaults());
                    assert(self.columns() =~= pre.columns().update(k as int, pre.columns()[k as int].update(slot as int, value@)));
                    assert forall|j: int| 0 <= j < self.buffers@.len() implies (#[trigger] self.buffers@[j]).wf() && self.buffers@[j].records().len() == self.allocator.cap() by {
                        if j != k { assert(self.buffers@[j] == pre.buffers@[j]); }
                    }
                    assert forall|c: nat, i: int| pre.kinds().contains(c) && 0 <= i < pre.cap() implies #[trigger] self.value(c, i) == if c == id.spec_value() && i == slot { value@ } else { pre.value(c, i) } by {
                        assert(self.column_kinds().contains(c));
                        assert(self.column_kinds()[k as int] == id.spec_value());
                        let j = index_of_kind(self.column_kinds(), c);
                        assert(0 <= j < self.column_kinds().len() && self.column_kinds()[j] == c);
                        assert(self.column_kinds()[j] == self.buffers@[j].kind().spec_value());
                        if c == id.spec_value() && j != k {
                            if j < k { assert(self.buffers@[j].kind().spec_value() != self.buffers@[k as int].kind().spec_value()); }
                            else { assert(self.buffers@[k as int].kind().spec_value() != self.buffers@[j].kind().spec_value()); }
                        }
                    }
                }
                true
            },
        }
    }

    /// Grow every column and the entity list to `target` slots; new records
    /// are the defaults, new entities the null handle.
    fn grow_columns(&mut self, target: usize)
        requires
            old(self).wf(),
            old(self).cap() <= target <= MAX_CAPACITY,
        ensures
            final(self).wf_at(target as nat),
            final(self).allocator == old(self).allocator,
            final(self).same_layout(old(self)),
            forall|c: nat, i: int| old(self).kinds().contains(c) && 0 <= i < target ==> #[trigger] final(self).value(c, i) == if i < old(self).cap() {
                old(self).value(c, i)
            } else {
                old(self).default_of(c)
            },
            forall|i: int| 0 <= i < old(self).cap() ==> #[trigger] final(self).entity_seq()[i] == old(self).entity_seq()[i],
    {
        let ghost pre = *self;
        let n = self.buffers.len();
        let mut k: usize = 0;
        while k < n
            invariant
                pre.wf(),
                pre.cap() <= target <= MAX_CAPACITY,
                n == self.buffers@.len(),
                n == pre.buffers@.len(),
                0 <= k <= n,
                self.allocator == pre.allocator,
                self.entities == pre.entities,
                self.bitfield == pre.bitfield,
                self.component_bitfield == pre.component_bitfield,
                self.components == pre.components,
                self.id == pre.id,
                forall|j: int| 0 <= j < n ==> (#[trigger] self.buffers@[j]).wf() && self.buffers@[j].kind() == pre.buffers@[j].kind() && self.buffers@[j].default_record() == pre.buffers@[j].default_record(),
                forall|j: int| 0 <= j < k ==> (#[trigger] self.buffers@[j]).records().len() == target,
                forall|j: int, i: int| 0 <= j < k && 0 <= i < target ==> #[trigger] self.buffers@[j].records()[i] == if i < pre.cap() { pre.buffers@[j].records()[i] } else { pre.buffers@[j].default_record() },
                forall|j: int| k <= j < n ==> (#[trigger] self.buffers@[j]) == pre.buffers@[j],
            decreases n - k,
        {
            let ghost before = self.buffers@;
            self.buffers[k].ensure_capacity(target);
            proof {
                assert(before[k as int] == pre.buffers@[k as int]);
                assert(pre.buffers@[k as int].records().len() == pre.cap());
                assert(self.buffers@[k as int].records().len() == target);
                assert(forall|i: int| 0 <= i < target ==> #[trigger] self.buffers@[k as int].records()[i] == if i < pre.cap() { pre.buffers@[k as int].records()[i] } else { pre.buffers@[k as int].default_record() });
                assert forall|j: int| 0 <= j < n && j != k implies #[trigger] self.buffers@[j] == before[j] by {}
            }
            k += 1;
        }
        let ghost mid = self.buffers@;
        let mut m = self.entities.len();
        while m < target
            invariant
                pre.wf(),
                pre.cap() <= m <= target <= MAX_CAPACITY,
                self.entities@.len() == m,
                self.buffers@ == mid,
                self.allocator == pre.allocator,
                self.bitfield == pre.bitfield,
                self.component_bitfield == pre.component_bitfield,
                self.components == pre.components,
                self.id == pre.id,
                forall|i: int| 0 <= i < pre.cap() ==> #[trigger] self.entities@[i] == pre.entities@[i],
            decreases target - m,
        {
            self.entities.push(Entity::null());
            m += 1;
        }
        self.bitfield.ensure_capacity(target);
        proof {
            assert(self.column_kinds() =~= pre.column_kinds());
            assert(self.defaults() =~= pre.defaults());
            assert forall|c: nat, i: int| pre.kinds().contains(c) && 0 <= i < target implies #[trigger] self.value(c, i) == if i < pre.cap() { pre.value(c, i) } else { pre.default_of(c) } by {
                assert(pre.column_kinds().contains(c));
                let j = index_of_kind(pre.column_kinds(), c);
                assert(0 <= j < n);
                assert(self.columns()[j] == self.buffers@[j].records());
                assert(pre.columns()[j] == pre.buffers@[j].records());
                assert(pre.defaults()[j] == pre.buffers@[j].default_record());
            }
            assert forall|j: int| 0 <= j < n implies (#[trigger] self.buffers@[j]).records().len() == target by {
                assert(pre.buffers@[j].records().len() == pre.cap());
            }
            assert forall|id: nat| #[trigger] self.component_bitfield@.contains(id) implies self.column_kinds().contains(id) by {
                assert(pre.column_kinds().contains(id));
            }
        }
    }

    /// Grow the table, its columns and its slot allocator to at least
    /// `capacity` slots; the new slots are free.
    pub fn ensure_capacity(&mut self, capacity: usize)
        requires
            old(self).wf(),
            capacity <= MAX_CAPACITY,
        ensures
            final(self).wf(),
            final(self).same_layout(old(self)),
            final(self).cap() == (if capacity > old(self).cap() { capacity as nat } else { old(self).cap() }),
            forall|i: int| #[trigger] final(self).slots().is_free(i) == (old(self).slots().is_free(i) || (old(self).cap() <= i < capacity)),
            forall|c: nat, i: int| old(self).kinds().contains(c) && 0 <= i < old(self).cap() ==> #[trigger] final(self).value(c, i) == old(self).value(c, i),
            forall|i: int| 0 <= i < old(self).cap() ==> #[trigger] final(self).entity_seq()[i] == old(self).entity_seq()[i],
    {
        if self.allocator.capacity() < capacity {
            self.grow_columns(capacity);
            let ghost grown = *self;
            self.allocator.ensure_capacity(capacity);
            assert(self.columns() == grown.columns() && self.column_kinds() == grown.column_kinds());
            assert(self.entity_seq() == grown.entity_seq());
            assert forall|c: nat, i: int| old(self).kinds().contains(c) && 0 <= i < old(self).cap() implies #[trigger] self.value(c, i) == old(self).value(c, i) by {
                assert(grown.value(c, i) == old(self).value(c, i));
            }
        } else {
            self.allocator.ensure_capacity(capacity);
            assert(self.buffers == old(self).buffers);
            assert(self.columns() == old(self).columns() && self.column_kinds() == old(self).column_kinds());
            assert(forall|c: nat, i: int| old(self).kinds().contains(c) && 0 <= i < old(self).cap() ==> #[trigger] self.value(c, i) == old(self).value(c, i));
        }
    }

    /// Allocate `count` slots, growing the table in lockstep when the free
    /// slots do not suffice; `ranges` receives the allocated ranges in
    /// ascending order. The records of the new slots are not reset.
    pub fn take_slots_no_init(&mut self, count: usize, ranges: &mut Vec<Range<usize>>)
        requires
            old(self).wf(),
            old(self).cap() + count <= MAX_CAPACITY,
        ensures
            final(self).wf(),
            final(self).same_layout(old(self)),
            fragmented_alloc(old(self).slots(), final(self).slots(), count as nat, Seq::empty(), final(ranges)@),
            final(ranges)@.subrange(0, final(ranges)@.len() as int) == final(ranges)@,
            forall|c: nat, i: int| old(self).kinds().contains(c) && 0 <= i < final(self).cap() ==> #[trigger] final(self).value(c, i) == if i < old(self).cap() {
                old(self).value(c, i)
            } else {
                old(self).default_of(c)
            },
            forall|i: int| 0 <= i < old(self).cap() ==> #[trigger] final(self).entity_seq()[i] == old(self).entity_seq()[i],
    {
        ranges.clear();
        let available = self.allocator.available();
        if available >= count {
            let ghost pre = *self;
            self.allocator.allocate_fragmented(count, ranges);
            proof {
                assert(self.columns() == pre.columns());
                assert forall|c: nat, i: int| pre.kinds().contains(c) && 0 <= i < self.cap() implies #[trigger] self.value(c, i) == pre.value(c, i) by {
                    assert(self.columns() == pre.columns());
                }
            }
        } else {
            let target = self.allocator.capacity() + (count - available);
            self.grow_columns(target);
            let ghost grown = *self;
            self.allocator.allocate_fragmented(count, ranges);
            proof {
                assert(self.columns() == grown.columns());
                assert forall|c: nat, i: int| old(self).kinds().contains(c) && 0 <= i < self.cap() implies #[trigger] self.value(c, i) == if i < old(self).cap() {
                    old(self).value(c, i)
                } else {
                    old(self).default_of(c)
                } by {
                    assert(grown.value(c, i) == self.value(c, i));
                }
                assert forall|i: int| 0 <= i < old(self).cap() implies #[trigger] self.entity_seq()[i] == old(self).entity_seq()[i] by {
                    assert(grown.entity_seq()[i] == old(self).entity_seq()[i]);
                }
            }
        }
        assert(ranges@.subrange(0, ranges@.len() as int) =~= ranges@);
    }

    /// Allocate `count` slots as [ArchetypeInstance::take_slots_no_init]
    /// does, and set every column of the allocated slots to its default
    /// record.
    pub fn take_slots(&mut self, count: usize, ranges: &mut Vec<Range<usize>>)
        requires
            old(self).wf(),
            old(self).cap() + count <= MAX_CAPACITY,
        ensures
            final(self).wf(),
            final(self).same_layout(old(self)),
            fragmented_alloc(old(self).slots(), final(self).slots(), count as nat, Seq::empty(), final(ranges)@),
            forall|c: nat, i: int| old(self).kinds().contains(c) && 0 <= i < final(self).cap() ==> #[trigger] final(self).value(c, i) == if i < old(self).cap() && !covers(final(ranges)@, i) {
                old(self).value(c, i)
            } else {
                old(self).default_of(c)
            },
            forall|i: int| 0 <= i < old(self).cap() ==> #[trigger] final(self).entity_seq()[i] == old(self).entity_seq()[i],
    {
        self.take_slots_no_init(count, ranges);
        let ghost mid = *self;
        let n = self.buffers.len();
        let mut k: usize = 0;
        proof {
            assert forall|j: int| 0 <= j < ranges@.len() implies (#[trigger] ranges@[j]).start <= ranges@[j].end <= mid.cap() by {
                assert(ranges@.subrange(0, ranges@.len() as int)[j] == ranges@[j]);
            }
        }
        while k < n
            invariant
                mid.wf(),
                n == self.buffers@.len(),
                n == mid.buffers@.len(),
                0 <= k <= n,
                self.allocator == mid.allocator,
                self.entities == mid.entities,
                self.bitfield == mid.bitfield,
                self.component_bitfield == mid.component_bitfield,
                self.components == mid.components,
                self.id == mid.id,
                forall|j: int| 0 <= j < ranges@.len() ==> (#[trigger] ranges@[j]).start <= ranges@[j].end <= mid.cap(),
                forall|j: int| 0 <= j < n ==> (#[trigger] self.buffers@[j]).wf() && self.buffers@[j].kind() == mid.buffers@[j].kind() && self.buffers@[j].default_record() == mid.buffers@[j].default_record() && self.buffers@[j].records().len() == mid.cap(),
                forall|j: int, i: int| 0 <= j < k && 0 <= i < mid.cap() ==> #[trigger] self.buffers@[j].records()[i] == if covers(ranges@, i) { mid.buffers@[j].default_record() } else { mid.buffers@[j].records()[i] },
                forall|j: int| k <= j < n ==> (#[trigger] self.buffers@[j]) == mid.buffers@[j],
            decreases n - k,
        {
            let ghost before = self.buffers@;
            self.buffers[k].default_ranges(ranges.as_slice());
            proof {
                assert(before[k as int] == mid.buffers@[k as int]);
                assert forall|j: int| 0 <= j < n && j != k implies #[trigger] self.buffers@[j] == before[j] by {}
            }
            k += 1;
        }
        proof {
            assert(self.column_kinds() =~= mid.column_kinds());
            assert(self.defaults() =~= mid.defaults());
            assert forall|c: nat, i: int| old(self).kinds().contains(c) && 0 <= i < self.cap() implies #[trigger] self.value(c, i) == if i < old(self).cap() && !covers(ranges@, i) {
                old(self).value(c, i)
            } else {
                old(self).default_of(c)
            } by {
                assert(mid.column_kinds().contains(c));
                let j = index_of_kind(mid.column_kinds(), c);
                assert(self.columns()[j] == self.buffers@[j].records());
                assert(mid.columns()[j] == mid.buffers@[j].records());
                assert(mid.defaults()[j] == mid.buffers@[j].default_record());
                assert(mid.value(c, i) == if i < old(self).cap() { old(self).value(c, i) } else { old(self).default_of(c) });
                if i >= old(self).cap() {
                    assert(mid.default_of(c) == old(self).default_of(c));
                }
            }
            assert forall|id: nat| #[trigger] self.component_bitfield@.contains(id) implies self.column_kinds().contains(id) by {
                assert(mid.column_kinds().contains(id));
            }
            assert forall|i: int| 0 <= i < old(self).cap() implies #[trigger] self.entity_seq()[i] == old(self).entity_seq()[i] by {
                assert(mid.entity_seq()[i] == old(self).entity_seq()[i]);
            }
        }
    }

    /// Free every slot listed in `slots` (a slot may be listed more than
    /// once), leaving the records as they are.
    fn release(&mut self, slots: &[usize])
        requires
            old(self).wf(),
            forall|k: int| 0 <= k < slots@.len() ==> old(self).slots().is_used(#[trigger] slots@[k] as int),
        ensures
            final(self).wf(),
            final(self).same_layout(old(self)),
            final(self).columns() == old(self).columns(),
            final(self).entity_seq() == old(self).entity_seq(),
            final(self).cap() == old(self).cap(),
            forall|i: int| #[trigger] final(self).slots().is_free(i) == (old(self).slots().is_free(i) || exists|k: int| 0 <= k < slots@.len() && slots@[k] == i),
    {
        self.bitfield.clear();
        self.bitfield.set_batch_unchecked::<true>(slots);
        let ranges = self.bitfield.iter_ranges();
        let ghost pre = *self;
        let mut n: usize = 0;
        while n < ranges.len()
            invariant
                pre.wf(),
                self.allocator.wf(),
                self.allocator.cap() == pre.allocator.cap(),
                self.buffers == pre.buffers,
                self.entities == pre.entities,
                self.bitfield == pre.bitfield,
                self.component_bitfield == pre.component_bitfield,
                self.components == pre.components,
                self.id == pre.id,
                0 <= n <= ranges@.len(),
                crate::ranges::separated(ranges@),
                forall|i: nat| #[trigger] pre.bitfield@.contains(i) <==> covers(ranges@, i as int),
                forall|i: nat| #[trigger] pre.bitfield@.contains(i) ==> exists|k: int| 0 <= k < slots@.len() && slots@[k] == i,
                forall|k: int| 0 <= k < slots@.len() ==> pre.slots().is_used(#[trigger] slots@[k] as int),
                forall|i: int| #[trigger] self.allocator.is_free(i) == (pre.allocator.is_free(i) || covers(ranges@.subrange(0, n as int), i)),
            decreases ranges@.len() - n,
        {
            let r = Range { start: ranges[n].start, end: ranges[n].end };
            proof {
                assert forall|i: int| r.start <= i < r.end implies self.allocator.is_used(i) by {
                    assert(covers(ranges@, i));
                    assert(pre.bitfield@.contains(i as nat));
                    let k = choose|k: int| 0 <= k < slots@.len() && slots@[k] == i as nat;
                    assert(pre.slots().is_used(slots@[k] as int));
                    if covers(ranges@.subrange(0, n as int), i) {
                        let j = choose|j: int| 0 <= j < n && (#[trigger] ranges@.subrange(0, n as int)[j]).start <= i < ranges@.subrange(0, n as int)[j].end;
                        assert(ranges@[j].end < ranges@[n as int].start);
                    }
                }
            }
            self.allocator.free(r);
            proof {
                assert(ranges@.subrange(0, n + 1) =~= ranges@.subrange(0, n as int).push(ranges@[n as int]));
                assert forall|i: int| #[trigger] self.allocator.is_free(i) == (pre.allocator.is_free(i) || covers(ranges@.subrange(0, n + 1), i)) by {
                    lemma_covers_push(ranges@.subrange(0, n as int), ranges@[n as int], i);
                }
            }
            n += 1;
        }
        proof {
            assert(ranges@.subrange(0, ranges@.len() as int) =~= ranges@);
            assert forall|i: int| #[trigger] self.slots().is_free(i) == (pre.slots().is_free(i) || exists|k: int| 0 <= k < slots@.len() && slots@[k] == i) by {
                if exists|k: int| 0 <= k < slots@.len() && slots@[k] == i {
                    let k = choose|k: int| 0 <= k < slots@.len() && slots@[k] == i;
                    assert(pre.bitfield@.contains(i as nat));
                }
                if covers(ranges@, i) && i >= 0 {
                    assert(pre.bitfield@.contains(i as nat));
                }
                if covers(ranges@, i) && i < 0 {
                    let j = choose|j: int| 0 <= j < ranges@.len() && (#[trigger] ranges@[j]).start <= i < ranges@[j].end;
                }
            }
        }
    }

    /// Return all `slots` to the allocator; a slot may be listed more than
    /// once. Records hold plain bytes, so nothing needs to be run on them.
    pub fn return_slots(&mut self, slots: &[usize])
        requires
            old(self).wf(),
            forall|k: int| 0 <= k < slots@.len() ==> old(self).slots().is_used(#[trigger] slots@[k] as int),
        ensures
            final(self).wf(),
            final(self).same_layout(old(self)),
            final(self).columns() == old(self).columns(),
            final(self).entity_seq() == old(self).entity_seq(),
            final(self).cap() == old(self).cap(),
            forall|i: int| #[trigger] final(self).slots().is_free(i) == (old(self).slots().is_free(i) || exists|k: int| 0 <= k < slots@.len() && slots@[k] == i),
    {
        self.release(slots);
    }

    /// Return all `slots` to the allocator after their records were moved to
    /// another archetype; a slot may be listed more than once.
    pub fn return_slots_no_drop(&mut self, slots: &[usize])
        requires
            old(self).wf(),
            forall|k: int| 0 <= k < slots@.len() ==> old(self).slots().is_used(#[trigger] slots@[k] as int),
        ensures
            final(self).wf(),
            final(self).same_layout(old(self)),
            final(self).columns() == old(self).columns(),
            final(self).entity_seq() == old(self).entity_seq(),
            final(self).cap() == old(self).cap(),
            forall|i: int| #[trigger] final(self).slots().is_free(i) == (old(self).slots().is_free(i) || exists|k: int| 0 <= k < slots@.len() && slots@[k] == i),
    {
        self.release(slots);
    }

    /// Return one `slot` to the allocator after its records were moved to
    /// another archetype.
    pub fn return_slot_no_drop(&mut self, slot: usize)
        requires
            old(self).wf(),
            old(self).slots().is_used(slot as int),
        ensures
            final(self).wf(),
            final(self).same_layout(old(self)),
            final(self).columns() == old(self).columns(),
            final(self).entity_seq() == old(self).entity_seq(),
            final(self).cap() == old(self).cap(),
            forall|i: int| #[trigger] final(self).slots().is_free(i) == (old(self).slots().is_free(i) || i == slot),
    {
        self.allocator.free(Range { start: slot, end: slot + 1 });
    }

    /// For every kind of this archetype that `dst` has too, copy the records
    /// of `src_range` into `dst` from slot `dst_idx` on.
    pub fn copy_component_range(&self, dst: &mut ArchetypeInstance, src_range: Range<usize>, dst_idx: usize)
        requires
            self.wf(),
            old(dst).wf(),
            src_range.start <= src_range.end <= self.cap(),
            dst_idx + (src_range.end - src_range.start) <= old(dst).cap(),
            forall|c: nat| self.kinds().contains(c) && old(dst).kinds().contains(c) ==> #[trigger] self.record_size(c) == old(dst).record_size(c),
        ensures
            final(dst).wf(),
            final(dst).same_layout(old(dst)),
            final(dst).slots() == old(dst).slots(),
            final(dst).entity_seq() == old(dst).entity_seq(),
            forall|c: nat, i: int| old(dst).kinds().contains(c) && 0 <= i < old(dst).cap() ==> #[trigger] final(dst).value(c, i) == if self.kinds().contains(c) && dst_idx <= i < dst_idx + (src_range.end - src_range.start) {
                self.value(c, src_range.start + i - dst_idx)
            } else {
                old(dst).value(c, i)
            },
    {
        let ghost pre = *dst;
        let n = self.buffers.len();
        let mut k: usize = 0;
        while k < n
            invariant
                self.wf(),
                pre.wf(),
                n == self.buffers@.len(),
                0 <= k <= n,
                src_range.start <= src_range.end <= self.cap(),
                dst_idx + (src_range.end - src_range.start) <= pre.cap(),
                forall|c: nat| self.kinds().contains(c) && pre.kinds().contains(c) ==> #[trigger] self.record_size(c) == pre.record_size(c),
                dst.allocator == pre.allocator,
                dst.entities == pre.entities,
                dst.bitfield == pre.bitfield,
                dst.component_bitfield == pre.component_bitfield,
                dst.components == pre.components,
                dst.id == pre.id,
                dst.buffers@.len() == pre.buffers@.len(),
                forall|j: int| 0 <= j < dst.buffers@.len() ==> (#[trigger] dst.buffers@[j]).wf() && dst.buffers@[j].kind() == pre.buffers@[j].kind() && dst.buffers@[j].default_record() == pre.buffers@[j].default_record() && dst.buffers@[j].records().len() == pre.cap(),
                forall|j: int, i: int| 0 <= j < dst.buffers@.len() && 0 <= i < pre.cap() ==> #[trigger] dst.buffers@[j].records()[i] == if (exists|x: int| 0 <= x < k && self.buffers@[x].kind().spec_value() == pre.buffers@[j].kind().spec_value()) && dst_idx <= i < dst_idx + (src_range.end - src_range.start) {
                    self.value(pre.buffers@[j].kind().spec_value(), src_range.start + i - dst_idx)
                } else {
                    pre.buffers@[j].records()[i]
                },
            decreases n - k,
        {
            let id = self.buffers[k].kind_id();
            proof {
                assert(self.column_kinds()[k as int] == id.spec_value());
                assert(self.kinds().contains(id.spec_value()));
            }
            let found = column_index(&dst.buffers, id);
            match found {
                None => {
                    proof {
                        assert forall|j: int, i: int| 0 <= j < dst.buffers@.len() && 0 <= i < pre.cap() implies #[trigger] dst.buffers@[j].records()[i] == if (exists|x: int| 0 <= x < k + 1 && self.buffers@[x].kind().spec_value() == pre.buffers@[j].kind().spec_value()) && dst_idx <= i < dst_idx + (src_range.end - src_range.start) {
                            self.value(pre.buffers@[j].kind().spec_value(), src_range.start + i - dst_idx)
                        } else {
                            pre.buffers@[j].records()[i]
                        } by {
                            assert(dst.buffers@[j].kind().spec_value() != id.spec_value());
                        }
                    }
                },
                Some(d) => {
                    let ghost before = dst.buffers@;
                    proof {
                        let c = id.spec_value();
                        assert(self.record_size(c) == pre.record_size(c));
                        let sj = index_of_kind(self.column_kinds(), c);
                        assert(self.column_kinds().contains(c));
                        assert(self.column_kinds()[sj] == c);
                        if sj != k {
                            if sj < k { assert(self.buffers@[sj].kind().spec_value() != self.buffers@[k as int].kind().spec_value()); }
                            else { assert(self.buffers@[k as int].kind().spec_value() != self.buffers@[sj].kind().spec_value()); }
                        }
                        assert(self.defaults()[k as int] == self.buffers@[k as int].default_record());
                        assert(pre.defaults()[d as int] == pre.buffers@[d as int].default_record());
                        assert(pre.column_kinds()[d as int] == c);
                        assert(pre.component_bitfield@.contains(c));
                        assert(pre.column_kinds().contains(c));
                        let pd = index_of_kind(pre.column_kinds(), c);
                        assert(pre.column_kinds()[pd] == c);
                        if pd != d {
                            if pd < d { assert(pre.buffers@[pd].kind().spec_value() != pre.buffers@[d as int].kind().spec_value()); }
                            else { assert(pre.buffers@[d as int].kind().spec_value() != pre.buffers@[pd].kind().spec_value()); }
                        }
                        assert(dst.buffers@[d as int].wf());
                    }
                    self.buffers[k].copy_values(&mut dst.buffers[d], Range { start: src_range.start, end: src_range.end }, dst_idx);
                    proof {
                        let c = id.spec_value();
                        assert forall|j: int, i: int| 0 <= j < dst.buffers@.len() && 0 <= i < pre.cap() implies #[trigger] dst.buffers@[j].records()[i] == if (exists|x: int| 0 <= x < k + 1 && self.buffers@[x].kind().spec_value() == pre.buffers@[j].kind().spec_value()) && dst_idx <= i < dst_idx + (src_range.end - src_range.start) {
                            self.value(pre.buffers@[j].kind().spec_value(), src_range.start + i - dst_idx)
                        } else {
                            pre.buffers@[j].records()[i]
                        } by {
                            if j == d {
                                assert(self.columns()[k as int] == self.buffers@[k as int].records());
                                assert(pre.buffers@[j].kind().spec_value() == c);
                                if exists|x: int| 0 <= x < k && self.buffers@[x].kind().spec_value() == pre.buffers@[j].kind().spec_value() {
                                    let x = choose|x: int| 0 <= x < k && self.buffers@[x].kind().spec_value() == pre.buffers@[j].kind().spec_value();
                                    assert(self.buffers@[x].kind().spec_value() != self.buffers@[k as int].kind().spec_value());
                                }
                            } else {
                                assert(dst.buffers@[j] == before[j]);
                                if pre.buffers@[j].kind().spec_value() == c {
                                    if j < d { assert(pre.buffers@[j].kind().spec_value() != pre.buffers@[d as int].kind().spec_value()); }
                                    else { assert(pre.buffers@[d as int].kind().spec_value() != pre.buffers@[j].kind().spec_value()); }
                                }
                            }
                        }
                    }
                },
            }
            k += 1;
        }
        proof {
            assert(dst.column_kinds() =~= pre.column_kinds());
            assert(dst.defaults() =~= pre.defaults());
            assert forall|c: nat, i: int| pre.kinds().contains(c) && 0 <= i < pre.cap() implies #[trigger] dst.value(c, i) == if self.kinds().contains(c) && dst_idx <= i < dst_idx + (src_range.end - src_range.start) {
                self.value(c, src_range.start + i - dst_idx)
            } else {
                pre.value(c, i)
            } by {
                assert(pre.column_kinds().contains(c));
                let j = index_of_kind(pre.column_kinds(), c);
                assert(pre.column_kinds()[j] == c);
                assert(dst.columns()[j] == dst.buffers@[j].records());
                assert(pre.columns()[j] == pre.buffers@[j].records());
                if self.kinds().contains(c) {
                    assert(self.column_kinds().contains(c));
                    let x = choose|x: int| 0 <= x < self.column_kinds().len() && self.column_kinds()[x] == c;
                    assert(self.buffers@[x].kind().spec_value() == c);
                } else {
                    if exists|x: int| 0 <= x < n && self.buffers@[x].kind().spec_value() == c {
                        let x = choose|x: int| 0 <= x < n && self.buffers@[x].kind().spec_value() == c;
                        assert(self.component_bitfield@.contains(self.buffers@[x].kind().spec_value()));
                    }
                }
            }
            assert forall|id: nat| #[trigger] dst.component_bitfield@.contains(id) implies dst.column_kinds().contains(id) by {
                assert(pre.column_kinds().contains(id));
            }
        }
    }

    /// For every kind of this archetype that `dst` has too, copy the record
    /// at `src_idx` into `dst` at `dst_idx`.
    pub fn copy_components(&self, dst: &mut ArchetypeInstance, src_idx: usize, dst_idx: usize)
        requires
            self.wf(),
            old(dst).wf(),
            src_idx < self.cap(),
            dst_idx < old(dst).cap(),
            forall|c: nat| self.kinds().contains(c) && old(dst).kinds().contains(c) ==> #[trigger] self.record_size(c) == old(dst).record_size(c),
        ensures
            final(dst).wf(),
            final(dst).same_layout(old(dst)),
            final(dst).slots() == old(dst).slots(),
            final(dst).entity_seq() == old(dst).entity_seq(),
            forall|c: nat, i: int| old(dst).kinds().contains(c) && 0 <= i < old(dst).cap() ==> #[trigger] final(dst).value(c, i) == if self.kinds().contains(c) && i == dst_idx {
                self.value(c, src_idx as int)
            } else {
                old(dst).value(c, i)
            },
    {
        self.copy_component_range(dst, Range { start: src_idx, end: src_idx + 1 }, dst_idx);
    }

    /// The column of kind `id`, when the archetype has that kind.
    fn find_column(&self, id: ComponentId) -> (r: Option<usize>)
        requires
            self.wf(),
        ensures
            r is Some <==> self.kinds().contains(id.spec_value()),
            r matches Some(k) ==> k == index_of_kind(self.column_kinds(), id.spec_value()) && k < self.buffers@.len(),
    {
        let mut k: usize = 0;
        while k < self.buffers.len()
            invariant
                self.wf(),
                0 <= k <= self.buffers@.len(),
                forall|j: int| 0 <= j < k ==> (#[trigger] self.buffers@[j]).kind().spec_value() != id.spec_value(),
            decreases self.buffers@.len() - k,
        {
            if self.buffers[k].kind_id().value() == id.value() {
                proof {
                    assert(self.column_kinds()[k as int] == id.spec_value());
                    let c = index_of_kind(self.column_kinds(), id.spec_value());
                    assert(self.buffers@[c].kind().spec_value() == id.spec_value());
                    if c != k {
                        if c < k { assert(self.buffers@[c].kind().spec_value() != self.buffers@[k as int].kind().spec_value()); }
                        else { assert(self.buffers@[k as int].kind().spec_value() != self.buffers@[c].kind().spec_value()); }
                    }
                }
                return Some(k);
            }
            k += 1;
        }
        proof {
            if self.kinds().contains(id.spec_value()) {
                assert(self.column_kinds().contains(id.spec_value()));
                let j = choose|j: int| 0 <= j < self.column_kinds().len() && self.column_kinds()[j] == id.spec_value();
                assert(self.buffers@[j].kind().spec_value() == id.spec_value());
            }
        }
        None
    }
}

} // verus!
