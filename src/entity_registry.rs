//! The entity registry: generational handles over a table of instance rows,
//! each pointing at a slot of an archetype.

use crate::archetype_instance::{Archetype, MAX_CAPACITY};
use crate::archetype_store::{lemma_matching_sorted, matching, transition_target, ArchetypeStore, ArchetypeTransitionKind};
use crate::entity_query::{EntityQuery, EntityQueryData};
use crate::bit_field::BitField;
use crate::components::{id_set, type_ids, ComponentId, ComponentType};
use crate::entity::Entity;
use crate::pool::Pool;
use crate::range_allocator::RangeAllocator;
use crate::ranges::{covers, lemma_covers_push, lemma_single_index, range_len};
use std::ops::Range;
use vstd::prelude::*;

verus! {

/// The largest number of instance rows: row indices fit in an [Entity]'s
/// `u32` index.
pub const MAX_ROWS: usize = 0x7FFF_FFFF;

/// A row of the instance table: where the entity's components are, and the
/// row's generation.
#[derive(Clone, Copy)]
struct EntityInstance {
    slot: usize,
    version: u32,
    archetype: usize,
}

/// `new` is `old` with the kind `c`, holding `v`, added to the entity `e`,
/// whose other records are kept.
pub open spec fn added(old: &EntityRegistry, new: &EntityRegistry, e: Entity, c: nat, v: Seq<u8>) -> bool {
    &&& new.is_valid(e)
    &&& new.kinds_of(e) == old.kinds_of(e).insert(c)
    &&& new.component(e, c) == v
    &&& forall|k: nat| #[trigger] old.kinds_of(e).contains(k) ==> new.component(e, k) == old.component(e, k)
}

/// `new` is `old` with the kind `c` removed from the entity `e`, whose other
/// records are kept.
pub open spec fn removed(old: &EntityRegistry, new: &EntityRegistry, e: Entity, c: nat) -> bool {
    &&& new.is_valid(e)
    &&& new.kinds_of(e) == old.kinds_of(e).remove(c)
    &&& forall|k: nat| #[trigger] new.kinds_of(e).contains(k) ==> new.component(e, k) == old.component(e, k)
}

/// Adding a kind to an entity and removing it again leaves the entity with
/// its former kinds and records; in between, the entity holds the added
/// record.
pub proof fn lemma_add_remove_round_trip(r0: &EntityRegistry, r1: &EntityRegistry, r2: &EntityRegistry, e: Entity, c: nat, v: Seq<u8>)
    requires
        !r0.kinds_of(e).contains(c),
        added(r0, r1, e, c, v),
        removed(r1, r2, e, c),
    ensures
        r1.component(e, c) == v,
        r2.is_valid(e),
        !r2.kinds_of(e).contains(c),
        r2.kinds_of(e) == r0.kinds_of(e),
        forall|k: nat| #[trigger] r0.kinds_of(e).contains(k) ==> r2.component(e, k) == r0.component(e, k),
{
    assert(r2.kinds_of(e) =~= r0.kinds_of(e));
    assert forall|k: nat| #[trigger] r0.kinds_of(e).contains(k) implies r2.component(e, k) == r0.component(e, k) by {
        assert(r2.kinds_of(e).contains(k));
        assert(r1.kinds_of(e).contains(k));
    }
}

/// The rows named by the handles of `entities`.
pub open spec fn rows_of(entities: Seq<Entity>) -> Set<int> {
    Set::new(|i: int| exists|k: int| 0 <= k < entities.len() && (#[trigger] entities[k]).index == i)
}

/// Generation safety: once destroying an entity has moved its row to the next
/// generation, every later registry that keeps the rows' generations holds
/// the old handle invalid, even after the row was reused.
pub proof fn lemma_destroyed_stays_invalid(r0: &EntityRegistry, r1: &EntityRegistry, r2: &EntityRegistry, e: Entity)
    requires
        r0.is_valid(e),
        e.index < r1.row_count(),
        r1.row_version(e.index as int) == r0.row_version(e.index as int) + 1,
        r2.versions_kept(r1),
    ensures
        !r2.is_valid(e),
{
    assert(r2.row_version(e.index as int) == r1.row_version(e.index as int));
}

/// Owns the entities and their components.
pub struct EntityRegistry {
    allocator: RangeAllocator,
    instances: Vec<EntityInstance>,
    archetype_store: ArchetypeStore,
    bitfield: BitField,
    slot_pool: Pool<Vec<usize>>,
    range_pool: Pool<Vec<Range<usize>>>,
}

impl EntityRegistry {
    /// The archetypes.
    pub closed spec fn store(&self) -> ArchetypeStore {
        self.archetype_store
    }

    /// The number of instance rows.
    pub closed spec fn row_count(&self) -> nat {
        self.instances@.len()
    }

    /// Whether row `i` holds a live entity.
    pub closed spec fn live(&self, i: int) -> bool {
        self.allocator.is_used(i)
    }

    /// The generation of row `i`.
    pub closed spec fn row_version(&self, i: int) -> u32 {
        self.instances@[i].version
    }

    /// The archetype of row `i`.
    pub closed spec fn row_archetype(&self, i: int) -> nat {
        self.instances@[i].archetype as nat
    }

    /// The archetype slot of row `i`.
    pub closed spec fn row_slot(&self, i: int) -> nat {
        self.instances@[i].slot as nat
    }

    /// Whether `e` names a live entity of this registry.
    pub open spec fn is_valid(&self, e: Entity) -> bool {
        &&& e.index < self.row_count()
        &&& self.live(e.index as int)
        &&& self.row_version(e.index as int) == e.version
    }

    /// The archetype of the entity `e`.
    pub open spec fn archetype_of(&self, e: Entity) -> nat {
        self.row_archetype(e.index as int)
    }

    /// The kinds of the entity `e`.
    pub open spec fn kinds_of(&self, e: Entity) -> Set<nat> {
        self.store().kinds_seq()[self.archetype_of(e) as int]
    }

    /// The record of kind `c` of the entity `e`.
    pub open spec fn component(&self, e: Entity, c: nat) -> Seq<u8> {
        self.store().archetypes()[self.archetype_of(e) as int].value(c, self.row_slot(e.index as int) as int)
    }

    /// `e` is valid in `self` and `old` alike, with the same archetype, kinds
    /// and records.
    pub open spec fn keeps(&self, old: &Self, e: Entity) -> bool {
        &&& self.is_valid(e)
        &&& self.archetype_of(e) == old.archetype_of(e)
        &&& self.row_slot(e.index as int) == old.row_slot(e.index as int)
        &&& self.kinds_of(e) == old.kinds_of(e)
        &&& forall|c: nat| #[trigger] old.kinds_of(e).contains(c) ==> self.component(e, c) == old.component(e, c)
    }

    /// The rows of `old` are still there, each at the same generation.
    pub open spec fn versions_kept(&self, old: &Self) -> bool {
        &&& self.row_count() >= old.row_count()
        &&& forall|i: int| 0 <= i < old.row_count() ==> #[trigger] self.row_version(i) == old.row_version(i)
    }

    /// Some row of the table is free.
    pub open spec fn has_free_row(&self) -> bool {
        exists|i: int| 0 <= i < self.row_count() && !self.live(i)
    }

    /// The number of free rows.
    pub closed spec fn free_row_count(&self) -> nat {
        self.allocator.free_len()
    }

    /// The archetypes of `self` extend those of `old`, each kept with its
    /// kinds.
    pub open spec fn extends(&self, old: &Self) -> bool {
        &&& self.store().len() >= old.store().len()
        &&& forall|a: int| 0 <= a < old.store().len() ==> #[trigger] self.store().kinds_seq()[a] == old.store().kinds_seq()[a]
    }

    /// The registry's invariant: every live row points at a live slot of an
    /// archetype, and that slot records the row's entity.
    pub closed spec fn wf(&self) -> bool {
        &&& self.allocator.wf()
        &&& self.instances@.len() == self.allocator.cap()
        &&& self.allocator.cap() <= MAX_ROWS
        &&& self.bitfield.wf()
        &&& self.bitfield.cap() >= self.allocator.cap()
        &&& self.archetype_store.wf()
        &&& forall|i: int| #[trigger] self.allocator.is_used(i) ==> self.row_ok(i)
        &&& forall|a: int, sl: int| 0 <= a < self.archetype_store.len() && #[trigger] self.archetype_store.archetypes()[a].slots().is_used(sl) ==> self.slot_ok(a, sl)
    }

    /// Slot `sl` of archetype `a` records a live entity whose row points
    /// back at that slot.
    pub closed spec fn slot_ok(&self, a: int, sl: int) -> bool {
        let e = self.archetype_store.archetypes()[a].entity_seq()[sl];
        &&& self.allocator.is_used(e.index as int)
        &&& self.instances@[e.index as int].archetype == a
        &&& self.instances@[e.index as int].slot == sl
        &&& self.instances@[e.index as int].version == e.version
    }

    /// Row `i` points at a live slot of an archetype, which records the
    /// row's entity.
    pub closed spec fn row_ok(&self, i: int) -> bool {
        let row = self.instances@[i];
        let a = self.archetype_store.archetypes()[row.archetype as int];
        &&& row.archetype < self.archetype_store.len()
        &&& a.slots().is_used(row.slot as int)
        &&& a.entity_seq()[row.slot as int] == (Entity { index: i as u32, version: row.version })
    }

    /// An empty registry holding the archetype without kinds.
    pub fn new() -> (r: Self)
        ensures
            r.wf(),
            r.store().len() == 1,
            r.store().kinds_seq()[0] == Set::<nat>::empty(),
            r.store().archetypes()[0].cap() == 0,
            r.row_count() == 0,
            r.free_row_count() == 0,
            r.live_count() == 0,
            forall|i: int| !#[trigger] r.live(i),
            r.has_room(),
            forall|e: Entity| !r.is_valid(e),
    {
        let r = EntityRegistry {
            allocator: RangeAllocator::new(),
            instances: Vec::new(),
            archetype_store: ArchetypeStore::new(),
            bitfield: BitField::new(),
            slot_pool: Pool::new(),
            range_pool: Pool::new(),
        };
        r
    }

    /// The number of rows of the instance table.
    pub fn row_capacity(&self) -> (r: usize)
        requires
            self.wf(),
        ensures
            r == self.row_count(),
    {
        self.instances.len()
    }

    /// The number of free rows of the instance table.
    pub fn free_rows(&self) -> (r: usize)
        requires
            self.wf(),
        ensures
            r == self.free_row_count(),
    {
        self.allocator.available()
    }

    /// Whether every archetype has room for one more slot.
    pub fn check_room(&self) -> (r: bool)
        requires
            self.wf(),
        ensures
            r == self.has_room(),
    {
        let n = self.archetype_store.archetype_count();
        let mut a: usize = 0;
        while a < n
            invariant
                n == self.store().len(),
                0 <= a <= n,
                forall|b: int| 0 <= b < a ==> #[trigger] self.store().archetypes()[b].cap() < MAX_CAPACITY,
            decreases n - a,
        {
            let c = self.archetype_store.get(a).allocator().capacity();
            if c >= MAX_CAPACITY {
                assert(self.store().archetypes()[a as int].cap() == c);
                return false;
            }
            a += 1;
        }
        true
    }

    /// Whether `e` names a live entity of this registry.
    pub fn is_alive(&self, e: &Entity) -> (r: bool)
        requires
            self.wf(),
        ensures
            r == self.is_valid(*e),
    {
        let i = e.index as usize;
        if i < self.instances.len() {
            let row = self.instances[i];
            if row.version != e.version {
                return false;
            }
            self.allocator.is_allocated(i)
        } else {
            false
        }
    }

    /// Add `size` free rows to the instance table, each at generation 1.
    fn reserve_entity_space(&mut self, size: usize)
        requires
            old(self).wf(),
            old(self).allocator.cap() + size <= MAX_ROWS,
        ensures
            final(self).wf(),
            final(self).archetype_store == old(self).archetype_store,
            final(self).allocator.cap() == old(self).allocator.cap() + size,
            final(self).allocator.free_len() == old(self).allocator.free_len() + size,
            forall|i: int| #[trigger] final(self).allocator.is_used(i) == old(self).allocator.is_used(i),
            forall|i: int| #[trigger] final(self).allocator.is_free(i) == (old(self).allocator.is_free(i) || (old(self).allocator.cap() <= i < final(self).allocator.cap())),
            forall|i: int| 0 <= i < old(self).instances@.len() ==> #[trigger] final(self).instances@[i] == old(self).instances@[i],
            forall|i: int| old(self).instances@.len() <= i < final(self).instances@.len() ==> #[trigger] final(self).instances@[i].version == 1,
    {
        let ghost pre = *self;
        self.allocator.reserve(size);
        let target = self.allocator.capacity();
        self.bitfield.ensure_capacity(target);
        let ghost grown = *self;
        let mut n = self.instances.len();
        while n < target
            invariant
                self.allocator == grown.allocator,
                self.bitfield == grown.bitfield,
                self.archetype_store == grown.archetype_store,
                pre.instances@.len() <= n <= target,
                self.instances@.len() == n,
                forall|i: int| 0 <= i < pre.instances@.len() ==> #[trigger] self.instances@[i] == pre.instances@[i],
                forall|i: int| pre.instances@.len() <= i < n ==> #[trigger] self.instances@[i].version == 1,
            decreases target - n,
        {
            self.instances.push(EntityInstance { slot: 0, version: 1, archetype: 0 });
            n += 1;
        }
        proof {
            assert forall|i: int| #[trigger] self.allocator.is_used(i) == pre.allocator.is_used(i) by {
                if 0 <= i < self.allocator.cap() && i >= pre.allocator.cap() {
                    assert(self.allocator.is_free(i));
                }
            }
            assert forall|i: int| #[trigger] self.allocator.is_used(i) implies self.row_ok(i) by {
                assert(pre.allocator.is_used(i));
                assert(pre.row_ok(i));
                assert(self.instances@[i] == pre.instances@[i]);
            }
        }
    }

    /// Take a free row of the instance table, growing the table (doubling
    /// it, or to one row) when none is free.
    fn alloc_row(&mut self) -> (index: usize)
        requires
            old(self).wf(),
            old(self).has_free_row() || old(self).row_count() <= MAX_ROWS / 2,
        ensures
            old(self).has_free_row() ==> final(self).allocator.cap() == old(self).allocator.cap() && forall|i: int| 0 <= i < index ==> old(self).allocator.is_used(i),
            !old(self).has_free_row() ==> index == old(self).allocator.cap() && final(self).allocator.cap() == old(self).allocator.cap() + (if old(self).allocator.cap() == 0 { 1 } else { old(self).allocator.cap() as int }),
            index >= old(self).instances@.len() ==> final(self).instances@[index as int].version == 1,
            final(self).allocator.wf(),
            final(self).instances@.len() == final(self).allocator.cap(),
            final(self).allocator.cap() <= MAX_ROWS,
            final(self).bitfield.wf(),
            final(self).bitfield.cap() >= final(self).allocator.cap(),
            final(self).archetype_store == old(self).archetype_store,
            index < final(self).instances@.len(),
            final(self).instances@.len() >= old(self).instances@.len(),
            !old(self).allocator.is_used(index as int),
            final(self).allocator.is_used(index as int),
            forall|i: int| i != index ==> #[trigger] final(self).allocator.is_used(i) == old(self).allocator.is_used(i),
            forall|i: int| 0 <= i < old(self).instances@.len() ==> #[trigger] final(self).instances@[i] == old(self).instances@[i],
            forall|i: int| i != index && #[trigger] final(self).allocator.is_used(i) ==> old(self).row_ok(i),
    {
        let ghost pre = *self;
        match self.allocator.try_allocate(1) {
            Ok(range) => {
                proof {
                    let j = choose|j: int| #[trigger] crate::free_list::first_fit(pre.allocator.free_view(), 1, j) && range.start == pre.allocator.free_view()[j].start;
                    pre.allocator.lemma_wf();
                    assert(pre.allocator.free_view()[j].start <= range.start < pre.allocator.free_view()[j].end);
                    assert(pre.allocator.is_free(range.start as int));
                    assert(range.start < pre.allocator.cap());
                    assert forall|i: int| i != range.start && #[trigger] self.allocator.is_used(i) implies pre.row_ok(i) by {
                        assert(pre.allocator.is_used(i));
                    }
                    let fv = pre.allocator.free_view();
                    assert(pre.has_free_row()) by {
                        assert(!pre.live(range.start as int));
                    }
                    if j > 0 {
                        assert(fv[0].start < fv[0].end);
                        assert(range_len(fv[0]) < 1);
                    }
                    assert forall|i: int| 0 <= i < range.start implies pre.allocator.is_used(i) by {
                        if pre.allocator.is_free(i) {
                            let k = choose|k: int| 0 <= k < fv.len() && (#[trigger] fv[k]).start <= i < fv[k].end;
                            if k > 0 {
                                assert(fv[0].end < fv[k].start);
                                assert(fv[0].start < fv[0].end);
                            }
                        }
                    }
                }
                range.start
            },
            Err(_) => {
                let cap = self.allocator.capacity();
                let grow = if cap == 0 { 1 } else { cap };
                self.reserve_entity_space(grow);
                let ghost mid = *self;
                let range = self.allocator.allocate(1);
                proof {
                    mid.allocator.lemma_wf();
                    assert(mid.allocator.is_free(pre.allocator.cap() as int));
                    let j = choose|j: int| 0 <= j < mid.allocator.free_view().len() && (#[trigger] mid.allocator.free_view()[j]).start <= pre.allocator.cap() < mid.allocator.free_view()[j].end;
                    assert(range_len(mid.allocator.free_view()[j]) >= 1);
                    let k = choose|k: int| #[trigger] crate::free_list::first_fit(mid.allocator.free_view(), 1, k) && range.start == mid.allocator.free_view()[k].start;
                    assert(mid.allocator.free_view()[k].start <= range.start < mid.allocator.free_view()[k].end);
                    assert(mid.allocator.is_free(range.start as int));
                    assert(!pre.allocator.is_used(range.start as int));
                    assert forall|i: int| i != range.start && #[trigger] self.allocator.is_used(i) implies pre.row_ok(i) by {
                        assert(mid.allocator.is_used(i));
                        assert(pre.allocator.is_used(i));
                    }
                    pre.allocator.lemma_wf();
                    let fv0 = pre.allocator.free_view();
                    if fv0.len() > 0 {
                        assert(fv0[0].start < fv0[0].end);
                        assert(range_len(fv0[0]) >= 1);
                    }
                    assert(!pre.has_free_row()) by {
                        if pre.has_free_row() {
                            let i = choose|i: int| 0 <= i < pre.row_count() && !pre.live(i);
                            assert(pre.allocator.is_free(i));
                            let k = choose|k: int| 0 <= k < fv0.len() && (#[trigger] fv0[k]).start <= i < fv0[k].end;
                        }
                    }
                    let fv = mid.allocator.free_view();
                    let c0 = pre.allocator.cap() as int;
                    assert(fv[k].start >= c0) by {
                        assert(mid.allocator.is_free(fv[k].start as int));
                        if fv[k].start < c0 {
                            assert(pre.allocator.is_free(fv[k].start as int));
                            let kk = choose|kk: int| 0 <= kk < fv0.len() && (#[trigger] fv0[kk]).start <= fv[k].start < fv0[kk].end;
                        }
                    }
                    assert(fv[j].start <= c0);
                    if k != j {
                        if k < j {
                            assert(fv[k].end < fv[j].start);
                            assert(fv[k].start < fv[k].end);
                        } else {
                            assert(range_len(fv[j]) < 1);
                        }
                    }
                }
                range.start
            },
        }
    }

    /// Create an entity of archetype `archetype`, each of whose records is
    /// its kind's default record.
    pub fn create_entity_from_archetype(&mut self, archetype: Archetype) -> (r: Entity)
        requires
            old(self).wf(),
            archetype.index < old(self).store().len(),
            old(self).store().archetypes()[archetype.index as int].cap() < MAX_CAPACITY,
            old(self).has_free_row() || old(self).row_count() <= MAX_ROWS / 2,
        ensures
            final(self).store().len() == old(self).store().len(),
            forall|a: int| 0 <= a < old(self).store().len() && a != archetype.index ==> #[trigger] final(self).store().archetypes()[a].cap() == old(self).store().archetypes()[a].cap(),
            final(self).live_count() == old(self).live_count() + 1,
            final(self).versions_kept(old(self)),
            final(self).wf(),
            final(self).is_valid(r),
            !old(self).live(r.index as int),
            forall|i: int| #[trigger] final(self).live(i) == (old(self).live(i) || i == r.index),
            final(self).archetype_of(r) == archetype.index,
            final(self).kinds_of(r) == old(self).store().kinds_seq()[archetype.index as int],
            r.version == (if (r.index as int) < old(self).row_count() { old(self).row_version(r.index as int) } else { 1 }),
            old(self).has_free_row() ==> final(self).row_count() == old(self).row_count() && forall|i: int| 0 <= i < r.index ==> old(self).live(i),
            !old(self).has_free_row() ==> r.index == old(self).row_count() && final(self).row_count() == old(self).row_count() + (if old(self).row_count() == 0 { 1 } else { old(self).row_count() }),
            forall|s: int| #[trigger] final(self).store().archetypes()[archetype.index as int].slots().is_used(s) == (old(self).store().archetypes()[archetype.index as int].slots().is_used(s) || s == final(self).row_slot(r.index as int)),
            forall|s: int| #[trigger] final(self).store().archetypes()[archetype.index as int].slots().is_free(s) ==> final(self).row_slot(r.index as int) < s,
            forall|c: nat| #[trigger] final(self).kinds_of(r).contains(c) ==> final(self).component(r, c) == old(self).store().archetypes()[archetype.index as int].default_of(c),
            forall|e: Entity| #[trigger] old(self).is_valid(e) ==> final(self).keeps(old(self), e),
            final(self).store().kinds_seq() == old(self).store().kinds_seq(),
    {
        let ghost pre = *self;
        let a = archetype.index;
        let index = self.alloc_row();
        let ghost after_alloc = self.instances@;
        let ghost s0 = self.archetype_store;
        proof {
            s0.lemma_wf();
        }
        let mut ranges: Vec<Range<usize>> = Vec::new();
        self.archetype_store.get_mut(a).take_slots(1, &mut ranges);
        proof {
            ArchetypeStore::lemma_replace_keeps_wf(&s0, &self.archetype_store, a as int);
            lemma_single_index(ranges@.subrange(0, ranges@.len() as int));
            assert(ranges@.subrange(0, ranges@.len() as int) =~= ranges@);
        }
        let slot = ranges[0].start;
        let version = self.instances[index].version;
        let entity = Entity { index: index as u32, version };
        let ghost s1 = self.archetype_store;
        proof {
            s1.lemma_wf();
            let at = s1.archetypes()[a as int];
            assert(at.slots().is_used(slot as int)) by {
                assert(covers(ranges@, slot as int));
                assert(ranges@[0].end <= at.cap());
            }
        }
        self.archetype_store.get_mut(a).set_entity(slot, entity);
        proof {
            ArchetypeStore::lemma_replace_keeps_wf(&s1, &self.archetype_store, a as int);
        }
        self.instances.set(index, EntityInstance { slot, version, archetype: a });
        proof {
            assert(self.instances@ == after_alloc.update(index as int, EntityInstance { slot, version, archetype: a }));
            assert(entity.index as int == index);
            let s2 = self.archetype_store;
            s2.lemma_wf();
            pre.archetype_store.lemma_wf();
            let at0 = pre.archetype_store.archetypes()[a as int];
            let at2 = s2.archetypes()[a as int];
            at0.lemma_wf();
            s1.archetypes()[a as int].lemma_wf();
            at2.lemma_wf();
            assert forall|i: int| #[trigger] self.allocator.is_used(i) implies self.row_ok(i) by {
                if i == index {
                    let at1 = s1.archetypes()[a as int];
                    assert(at2.slots() == at1.slots());
                    assert(self.instances@[i] == EntityInstance { slot, version, archetype: a });
                } else {
                    assert(pre.row_ok(i));
                    let row = pre.instances@[i];
                    assert(self.instances@[i] == row);
                    if row.archetype == a {
                        assert(at0.slots().is_used(row.slot as int));
                        assert(!covers(ranges@, row.slot as int));
                        assert(row.slot != slot);
                        let at1 = s1.archetypes()[a as int];
                        assert(row.slot < at0.cap());
                        assert(at1.entity_seq()[row.slot as int] == at0.entity_seq()[row.slot as int]);
                        assert(at2.entity_seq() == at1.entity_seq().update(slot as int, entity));
                        assert(at2.entity_seq()[row.slot as int] == at0.entity_seq()[row.slot as int]);
                        assert(at2.slots() == at1.slots());
                    } else {
                        assert(s2.archetypes()[row.archetype as int] == pre.archetype_store.archetypes()[row.archetype as int]);
                    }
                }
            }
            assert forall|e: Entity| #[trigger] pre.is_valid(e) implies self.keeps(&pre, e) by {
                assert(pre.row_ok(e.index as int));
                assert(e.index != index);
                assert(e.index < pre.instances@.len());
                let row = pre.instances@[e.index as int];
                assert(after_alloc[e.index as int] == row);
                assert(self.instances@[e.index as int] == row);
                assert(self.store().kinds_seq()[row.archetype as int] == pre.store().kinds_seq()[row.archetype as int]);
                if row.archetype == a {
                    assert(at0.slots().is_used(row.slot as int));
                    assert(!covers(ranges@, row.slot as int));
                    assert forall|c: nat| #[trigger] pre.kinds_of(e).contains(c) implies self.component(e, c) == pre.component(e, c) by {
                        assert(at0.kinds().contains(c));
                        let at1 = s1.archetypes()[a as int];
                        assert(row.slot < at0.cap());
                        assert(at1.value(c, row.slot as int) == at0.value(c, row.slot as int));
                        assert(at2.columns() == at1.columns());
                    }
                } else {
                    assert(s2.archetypes()[row.archetype as int] == pre.archetype_store.archetypes()[row.archetype as int]);
                }
            }
            assert forall|b: int, sl: int| 0 <= b < s2.len() && #[trigger] s2.archetypes()[b].slots().is_used(sl) implies self.slot_ok(b, sl) by {
                let at1 = s1.archetypes()[a as int];
                if b == a && sl == slot {
                    assert(at2.entity_seq()[sl] == entity);
                } else {
                    let xb0 = pre.archetype_store.archetypes()[b];
                    xb0.lemma_wf();
                    if b == a {
                        assert(at2.slots() == at1.slots());
                        if covers(ranges@, sl) {
                            let j = choose|j: int| 0 <= j < ranges@.len() && (#[trigger] ranges@[j]).start <= sl < ranges@[j].end;
                            assert(j == 0);
                        }
                        assert(covers(ranges@.subrange(0, ranges@.len() as int), sl) == covers(ranges@, sl));
                        assert(at0.slots().is_used(sl));
                        assert(at1.entity_seq()[sl] == at0.entity_seq()[sl]);
                        assert(at2.entity_seq()[sl] == at0.entity_seq()[sl]);
                    } else {
                        assert(s2.archetypes()[b] == pre.archetype_store.archetypes()[b]);
                    }
                    assert(pre.slot_ok(b, sl));
                    let ent = xb0.entity_seq()[sl];
                    assert(ent.index != index);
                    assert(after_alloc[ent.index as int] == pre.instances@[ent.index as int]);
                }
            }
            {
                let at1 = s1.archetypes()[a as int];
                assert(at2.slots() == at1.slots());
                assert(ranges@.subrange(0, ranges@.len() as int) == ranges@);
                assert forall|x: int| #[trigger] at2.slots().is_used(x) == (at0.slots().is_used(x) || x == slot) by {
                    if covers(ranges@, x) {
                        let j = choose|j: int| 0 <= j < ranges@.len() && (#[trigger] ranges@[j]).start <= x < ranges@[j].end;
                        assert(j == 0);
                    }
                    if x == slot {
                        assert(covers(ranges@, x));
                    }
                }
                assert forall|x: int| #[trigger] at2.slots().is_free(x) implies slot < x by {
                    assert(covers(ranges@, slot as int));
                }
            }
            assert forall|c: nat| #[trigger] self.kinds_of(entity).contains(c) implies self.component(entity, c) == pre.store().archetypes()[a as int].default_of(c) by {
                assert(self.archetype_of(entity) == a);
                assert(at0.kinds().contains(c));
                assert(covers(ranges@, slot as int));
                let at1 = s1.archetypes()[a as int];
                assert(slot < at1.cap());
                assert(at1.value(c, slot as int) == at0.default_of(c));
                assert(at2.columns() == at1.columns());
            }
        }
        proof {
            pre.lemma_live_count();
            self.lemma_live_count();
            assert(self.live_rows() =~= pre.live_rows().insert(index as int));
        }
        entity
    }

    /// Create `count` entities of archetype `archetype`, each of whose
    /// records is its kind's default record. The rows are taken from the
    /// free rows, lowest first (when they do not suffice the table grows to
    /// twice its size, or to the size needed if that is more); the
    /// i-th entity gets the i-th row and the i-th allocated slot, both in
    /// ascending order.
    #[verifier::spinoff_prover]
    #[verifier::rlimit(100)]
    pub fn create_entities_from_archetype(&mut self, archetype: Archetype, count: usize) -> (r: Vec<Entity>)
        requires
            old(self).wf(),
            archetype.index < old(self).store().len(),
            old(self).store().archetypes()[archetype.index as int].cap() + count <= MAX_CAPACITY,
            count <= old(self).free_row_count() || old(self).row_count() * 2 + count <= MAX_ROWS,
        ensures
            final(self).store().len() == old(self).store().len(),
            forall|a: int| 0 <= a < old(self).store().len() && a != archetype.index ==> #[trigger] final(self).store().archetypes()[a].cap() == old(self).store().archetypes()[a].cap(),
            final(self).versions_kept(old(self)),
            final(self).wf(),
            r@.len() == count,
            forall|x: int, y: int| 0 <= x < y < r@.len() ==> r@[x].index < r@[y].index,
            forall|x: int| 0 <= x < r@.len() ==> final(self).is_valid(#[trigger] r@[x]) && !old(self).live(r@[x].index as int) && final(self).archetype_of(r@[x]) == archetype.index,
            forall|x: int, c: nat| 0 <= x < r@.len() && #[trigger] final(self).kinds_of(r@[x]).contains(c) ==> final(self).component(r@[x], c) == old(self).store().archetypes()[archetype.index as int].default_of(c),
            forall|x: int| 0 <= x < r@.len() ==> #[trigger] final(self).kinds_of(r@[x]) == old(self).store().kinds_seq()[archetype.index as int],
            forall|i: int| #[trigger] final(self).live(i) == (old(self).live(i) || exists|x: int| 0 <= x < r@.len() && r@[x].index == i),
            forall|e: Entity| #[trigger] old(self).is_valid(e) ==> final(self).keeps(old(self), e),
            final(self).store().kinds_seq() == old(self).store().kinds_seq(),
            forall|x: int| 0 <= x < r@.len() ==> (#[trigger] r@[x]).version == (if (r@[x].index as int) < old(self).row_count() { old(self).row_version(r@[x].index as int) } else { 1 }),
            forall|x: int, i: int| 0 <= x < r@.len() && 0 <= i < final(self).row_count() && !#[trigger] final(self).live(i) ==> (#[trigger] r@[x]).index < i,
            count <= old(self).free_row_count() ==> final(self).row_count() == old(self).row_count(),
            final(self).live_count() == old(self).live_count() + count,
            count > old(self).free_row_count() ==> final(self).row_count() == (if old(self).row_count() * 2 > old(self).row_count() + (count - old(self).free_row_count()) { old(self).row_count() * 2 } else { old(self).row_count() + (count - old(self).free_row_count()) as nat }),
            final(self).free_row_count() + count == old(self).free_row_count() + (final(self).row_count() - old(self).row_count()),
            forall|x: int, y: int| 0 <= x < y < r@.len() ==> final(self).row_slot(r@[x].index as int) < final(self).row_slot(r@[y].index as int),
            ({
                let a0 = old(self).store().archetypes()[archetype.index as int];
                let a1 = final(self).store().archetypes()[archetype.index as int];
                &&& forall|sl: int| #[trigger] a1.slots().is_used(sl) == (a0.slots().is_used(sl) || exists|x: int| 0 <= x < r@.len() && final(self).row_slot(r@[x].index as int) == sl)
                &&& forall|x: int, sl: int| 0 <= x < r@.len() && #[trigger] a1.slots().is_free(sl) ==> final(self).row_slot((#[trigger] r@[x]).index as int) < sl
                &&& a1.slots().free_len() + count == a0.slots().free_len() + (a1.cap() - a0.cap())
                &&& a1.cap() == a0.cap() + (if count > a0.slots().free_len() { count - a0.slots().free_len() } else { 0 })
            }),
    {
        let ghost pre = *self;
        let a = archetype.index;
        let mut instance_ranges: Vec<Range<usize>> = match self.range_pool.take_one() {
            Some(v) => v,
            None => Vec::new(),
        };
        instance_ranges.clear();
        let available = self.allocator.available();
        if available < count {
            let cap = self.allocator.capacity();
            let needed = cap + (count - available);
            let target = if cap * 2 > needed { cap * 2 } else { needed };
            self.reserve_entity_space(target - cap);
        }
        let ghost grown = *self;
        proof {
            grown.allocator.lemma_wf();
            assert(count <= grown.allocator.free_len());
            assert(grown.allocator.cap() + count <= usize::MAX + grown.allocator.free_len());
        }
        self.allocator.allocate_fragmented(count, &mut instance_ranges);
        let ghost alloc1 = self.allocator;
        proof {
            assert(instance_ranges@.subrange(0, instance_ranges@.len() as int) =~= instance_ranges@);
            assert(self.allocator.cap() == grown.allocator.cap());
        }
        let rows = crate::ranges::flatten(&instance_ranges);
        let ghost s0 = self.archetype_store;
        proof {
            s0.lemma_wf();
        }
        let mut slot_ranges: Vec<Range<usize>> = match self.range_pool.take_one() {
            Some(v) => v,
            None => Vec::new(),
        };
        slot_ranges.clear();
        self.archetype_store.get_mut(a).take_slots(count, &mut slot_ranges);
        proof {
            ArchetypeStore::lemma_replace_keeps_wf(&s0, &self.archetype_store, a as int);
            assert(slot_ranges@.subrange(0, slot_ranges@.len() as int) =~= slot_ranges@);
        }
        let slots = crate::ranges::flatten(&slot_ranges);
        let ghost s1 = self.archetype_store;
        let ghost rows0 = self.instances@;
        let ghost x1 = s1.archetypes()[a as int];
        proof {
            s1.lemma_wf();
            x1.lemma_wf();
            assert forall|x: int| 0 <= x < rows@.len() implies !grown.allocator.is_used(#[trigger] rows@[x] as int) && self.allocator.is_used(rows@[x] as int) && rows@[x] < rows0.len() by {
                assert(covers(instance_ranges@, rows@[x] as int));
                let j = choose|j: int| 0 <= j < instance_ranges@.len() && (#[trigger] instance_ranges@[j]).start <= rows@[x] < instance_ranges@[j].end;
                assert(instance_ranges@[j].end <= self.allocator.cap());
            }
            assert forall|x: int| 0 <= x < slots@.len() implies x1.slots().is_used(#[trigger] slots@[x] as int) && !pre.archetype_store.archetypes()[a as int].slots().is_used(slots@[x] as int) by {
                assert(covers(slot_ranges@, slots@[x] as int));
                let j = choose|j: int| 0 <= j < slot_ranges@.len() && (#[trigger] slot_ranges@[j]).start <= slots@[x] < slot_ranges@[j].end;
                assert(slot_ranges@[j].end <= x1.cap());
            }
        }
        let mut out: Vec<Entity> = Vec::new();
        let mut n: usize = 0;
        while n < count
            invariant
                pre.wf(),
                grown.wf(),
                s1.wf(),
                x1.wf(),
                x1 == s1.archetypes()[a as int],
                a < s1.len(),
                0 <= n <= count,
                rows@.len() == count,
                slots@.len() == count,
                forall|x: int, y: int| 0 <= x < y < count ==> rows@[x] < rows@[y],
                forall|x: int, y: int| 0 <= x < y < count ==> slots@[x] < slots@[y],
                forall|x: int| 0 <= x < count ==> !grown.allocator.is_used(#[trigger] rows@[x] as int) && alloc1.is_used(rows@[x] as int) && rows@[x] < rows0.len(),
                forall|x: int| 0 <= x < count ==> x1.slots().is_used(#[trigger] slots@[x] as int) && !pre.archetype_store.archetypes()[a as int].slots().is_used(slots@[x] as int),
                self.allocator == alloc1,
                self.bitfield == grown.bitfield,
                self.instances@.len() == rows0.len(),
                rows0.len() == alloc1.cap(),
                rows0.len() <= MAX_ROWS,
                self.archetype_store.wf(),
                self.archetype_store.len() == s1.len(),
                self.archetype_store.kinds_seq() == s1.kinds_seq(),
                forall|b: int| 0 <= b < s1.len() && b != a ==> #[trigger] self.archetype_store.archetypes()[b] == s1.archetypes()[b],
                self.archetype_store.archetypes()[a as int].same_layout(&x1),
                self.archetype_store.archetypes()[a as int].slots() == x1.slots(),
                self.archetype_store.archetypes()[a as int].columns() == x1.columns(),
                self.archetype_store.archetypes()[a as int].entity_seq().len() == x1.entity_seq().len(),
                forall|sl: int| 0 <= sl < x1.cap() && !(exists|x: int| 0 <= x < n && slots@[x] == sl) ==> #[trigger] self.archetype_store.archetypes()[a as int].entity_seq()[sl] == x1.entity_seq()[sl],
                out@.len() == n,
                forall|x: int| 0 <= x < n ==> #[trigger] out@[x] == (Entity { index: rows@[x] as u32, version: rows0[rows@[x] as int].version }),
                forall|x: int| 0 <= x < n ==> self.archetype_store.archetypes()[a as int].entity_seq()[#[trigger] slots@[x] as int] == out@[x],
                forall|i: int| 0 <= i < rows0.len() && !(exists|x: int| 0 <= x < n && rows@[x] == i) ==> #[trigger] self.instances@[i] == rows0[i],
                forall|x: int| 0 <= x < n ==> #[trigger] self.instances@[rows@[x] as int] == (EntityInstance { slot: slots@[x], version: rows0[rows@[x] as int].version, archetype: a }),
            decreases count - n,
        {
            let i = rows[n];
            let sl = slots[n];
            let version = self.instances[i].version;
            let entity = Entity { index: i as u32, version };
            let ghost sa = self.archetype_store;
            let ghost inst_before = self.instances@;
            proof {
                sa.lemma_wf();
                sa.archetypes()[a as int].lemma_wf();
                assert(!(exists|x: int| 0 <= x < n && rows@[x] == i)) by {
                    if exists|x: int| 0 <= x < n && rows@[x] == i {
                        let x = choose|x: int| 0 <= x < n && rows@[x] == i;
                        assert(rows@[x] < rows@[n as int]);
                    }
                }
                assert(self.instances@[i as int] == rows0[i as int]);
            }
            self.archetype_store.get_mut(a).set_entity(sl, entity);
            proof {
                ArchetypeStore::lemma_replace_keeps_wf(&sa, &self.archetype_store, a as int);
            }
            self.instances.set(i, EntityInstance { slot: sl, version, archetype: a });
            out.push(entity);
            proof {
                let ea = self.archetype_store.archetypes()[a as int];
                assert forall|s2: int| 0 <= s2 < x1.cap() && !(exists|x: int| 0 <= x < n + 1 && slots@[x] == s2) implies #[trigger] ea.entity_seq()[s2] == x1.entity_seq()[s2] by {
                    assert(s2 != sl);
                    if exists|x: int| 0 <= x < n && slots@[x] == s2 {
                        let x = choose|x: int| 0 <= x < n && slots@[x] == s2;
                    }
                }
                assert forall|x: int| 0 <= x < n + 1 implies ea.entity_seq()[#[trigger] slots@[x] as int] == out@[x] by {
                    if x < n {
                        assert(slots@[x] < slots@[n as int]);
                    }
                }
                assert forall|i2: int| 0 <= i2 < rows0.len() && !(exists|x: int| 0 <= x < n + 1 && rows@[x] == i2) implies #[trigger] self.instances@[i2] == rows0[i2] by {
                    assert(i2 != i);
                    if exists|x: int| 0 <= x < n && rows@[x] == i2 {
                        let x = choose|x: int| 0 <= x < n && rows@[x] == i2;
                    }
                }
                assert forall|x: int| 0 <= x < n + 1 implies #[trigger] self.instances@[rows@[x] as int] == (EntityInstance { slot: slots@[x], version: rows0[rows@[x] as int].version, archetype: a }) by {
                    if x < n {
                        assert(rows@[x] < rows@[n as int]);
                    }
                }
            }
            n += 1;
        }
        proof {
            let sf = self.archetype_store;
            sf.lemma_wf();
            let xf = sf.archetypes()[a as int];
            let x0 = pre.archetype_store.archetypes()[a as int];
            x0.lemma_wf();
            assert forall|b: int| 0 <= b < pre.archetype_store.len() && b != a implies #[trigger] sf.archetypes()[b] == pre.archetype_store.archetypes()[b] by {
                assert(s1.archetypes()[b] == s0.archetypes()[b]);
            }
            assert forall|i: int| #[trigger] self.live(i) == (pre.live(i) || exists|x: int| 0 <= x < out@.len() && out@[x].index == i) by {
                if exists|x: int| 0 <= x < out@.len() && out@[x].index == i {
                    let x = choose|x: int| 0 <= x < out@.len() && out@[x].index == i;
                    assert(alloc1.is_used(rows@[x] as int));
                }
                if alloc1.is_used(i) && !pre.live(i) {
                    assert(!grown.allocator.is_used(i));
                    assert(covers(instance_ranges@, i));
                    assert(rows@.contains(i as usize));
                    let x = choose|x: int| 0 <= x < rows@.len() && rows@[x] == i as usize;
                    assert(out@[x].index == i);
                }
                if pre.live(i) {
                    assert(grown.allocator.is_used(i));
                }
            }
            assert forall|i: int| #[trigger] self.allocator.is_used(i) implies self.row_ok(i) by {
                if exists|x: int| 0 <= x < count && rows@[x] == i {
                    let x = choose|x: int| 0 <= x < count && rows@[x] == i;
                    assert(out@[x].index as int == i);
                } else {
                    if covers(instance_ranges@, i) {
                        assert(rows@.contains(i as usize));
                        let x = choose|x: int| 0 <= x < rows@.len() && rows@[x] == i as usize;
                    }
                    assert(alloc1.cap() == grown.allocator.cap());
                    assert(grown.allocator.is_used(i));
                    assert(pre.live(i));
                    assert(pre.row_ok(i));
                    assert(self.instances@[i] == rows0[i]);
                    assert(rows0[i] == pre.instances@[i]);
                    let rw = pre.instances@[i];
                    if rw.archetype == a {
                        assert(x0.slots().is_used(rw.slot as int));
                        assert(!covers(slot_ranges@, rw.slot as int));
                        assert(!(exists|x: int| 0 <= x < count && slots@[x] == rw.slot)) by {
                            if exists|x: int| 0 <= x < count && slots@[x] == rw.slot {
                                let x = choose|x: int| 0 <= x < count && slots@[x] == rw.slot;
                            }
                        }
                        assert(x1.entity_seq()[rw.slot as int] == x0.entity_seq()[rw.slot as int]);
                    }
                }
            }
            assert forall|b: int, sl: int| 0 <= b < sf.len() && #[trigger] sf.archetypes()[b].slots().is_used(sl) implies self.slot_ok(b, sl) by {
                if b == a as int && exists|x: int| 0 <= x < count && slots@[x] == sl {
                    let x = choose|x: int| 0 <= x < count && slots@[x] == sl;
                    assert(xf.entity_seq()[slots@[x] as int] == out@[x]);
                    assert(out@[x].index as int == rows@[x] as int);
                    assert(alloc1.is_used(rows@[x] as int));
                } else {
                    let xb0 = pre.archetype_store.archetypes()[b];
                    xb0.lemma_wf();
                    if b == a as int {
                        if covers(slot_ranges@, sl) {
                            assert(slots@.contains(sl as usize));
                            let x = choose|x: int| 0 <= x < slots@.len() && slots@[x] == sl as usize;
                        }
                        assert(x1.slots().is_used(sl));
                        assert(x0.slots().is_used(sl));
                        assert(xf.entity_seq()[sl] == x1.entity_seq()[sl]);
                        assert(x1.entity_seq()[sl] == x0.entity_seq()[sl]);
                    } else {
                        assert(sf.archetypes()[b] == xb0);
                    }
                    assert(pre.slot_ok(b, sl));
                    let ent = xb0.entity_seq()[sl];
                    assert(grown.allocator.is_used(ent.index as int));
                    assert(!(exists|x: int| 0 <= x < count && rows@[x] == ent.index as int)) by {
                        if exists|x: int| 0 <= x < count && rows@[x] == ent.index as int {
                            let x = choose|x: int| 0 <= x < count && rows@[x] == ent.index as int;
                        }
                    }
                    assert(self.instances@[ent.index as int] == rows0[ent.index as int]);
                    assert(rows0[ent.index as int] == pre.instances@[ent.index as int]);
                    assert(alloc1.is_used(ent.index as int)) by {
                        assert(alloc1.cap() == grown.allocator.cap());
                    }
                }
            }
            assert forall|e: Entity| #[trigger] pre.is_valid(e) implies self.keeps(&pre, e) by {
                assert(pre.row_ok(e.index as int));
                assert(grown.allocator.is_used(e.index as int));
                assert(!(exists|x: int| 0 <= x < count && rows@[x] == e.index as int)) by {
                    if exists|x: int| 0 <= x < count && rows@[x] == e.index as int {
                        let x = choose|x: int| 0 <= x < count && rows@[x] == e.index as int;
                    }
                }
                assert(self.instances@[e.index as int] == pre.instances@[e.index as int]);
                let rw = pre.instances@[e.index as int];
                let b = rw.archetype as int;
                assert(sf.kinds_seq()[b] == pre.store().kinds_seq()[b]);
                if b == a as int {
                    assert(x0.slots().is_used(rw.slot as int));
                    assert(!covers(slot_ranges@, rw.slot as int));
                    assert forall|c: nat| #[trigger] pre.kinds_of(e).contains(c) implies self.component(e, c) == pre.component(e, c) by {
                        assert(x0.kinds().contains(c));
                        assert(x1.value(c, rw.slot as int) == x0.value(c, rw.slot as int));
                    }
                }
            }
            assert forall|x: int, c: nat| 0 <= x < out@.len() && #[trigger] self.kinds_of(out@[x]).contains(c) implies self.component(out@[x], c) == pre.store().archetypes()[a as int].default_of(c) by {
                assert(self.instances@[rows@[x] as int].archetype == a);
                assert(out@[x].index as int == rows@[x] as int);
                assert(x0.kinds().contains(c));
                assert(covers(slot_ranges@, slots@[x] as int));
                assert(x1.value(c, slots@[x] as int) == x0.default_of(c));
            }
            assert forall|x: int| 0 <= x < out@.len() implies self.is_valid(#[trigger] out@[x]) && !pre.live(out@[x].index as int) && self.archetype_of(out@[x]) == a by {
                assert(out@[x].index as int == rows@[x] as int);
                assert(pre.live(rows@[x] as int) ==> grown.allocator.is_used(rows@[x] as int));
            }
            assert forall|x: int| 0 <= x < out@.len() implies #[trigger] self.kinds_of(out@[x]) == pre.store().kinds_seq()[a as int] by {
                assert(out@[x].index as int == rows@[x] as int);
            }
            assert forall|x: int, y: int| 0 <= x < y < out@.len() implies out@[x].index < out@[y].index by {
                assert(rows@[x] < rows@[y]);
            }
            assert(rows0 == grown.instances@);
            assert forall|x: int| 0 <= x < out@.len() implies (#[trigger] out@[x]).version == (if (out@[x].index as int) < pre.row_count() { pre.row_version(out@[x].index as int) } else { 1 }) by {
                assert(out@[x].index as int == rows@[x] as int);
            }
            assert forall|x: int, i: int| 0 <= x < out@.len() && 0 <= i < self.row_count() && !#[trigger] self.live(i) implies (#[trigger] out@[x]).index < i by {
                assert(out@[x].index as int == rows@[x] as int);
                assert(covers(instance_ranges@, rows@[x] as int));
                assert(alloc1.is_free(i));
            }
            assert forall|x: int, y: int| 0 <= x < y < out@.len() implies self.row_slot(out@[x].index as int) < self.row_slot(out@[y].index as int) by {
                assert(out@[x].index as int == rows@[x] as int);
                assert(out@[y].index as int == rows@[y] as int);
                assert(slots@[x] < slots@[y]);
            }
            assert(slot_ranges@.subrange(0, slot_ranges@.len() as int) == slot_ranges@);
            assert forall|sl: int| #[trigger] xf.slots().is_used(sl) == (x0.slots().is_used(sl) || exists|x: int| 0 <= x < out@.len() && self.row_slot(out@[x].index as int) == sl) by {
                if exists|x: int| 0 <= x < out@.len() && self.row_slot(out@[x].index as int) == sl {
                    let x = choose|x: int| 0 <= x < out@.len() && self.row_slot(out@[x].index as int) == sl;
                    assert(out@[x].index as int == rows@[x] as int);
                    assert(covers(slot_ranges@, slots@[x] as int));
                    let j = choose|j: int| 0 <= j < slot_ranges@.len() && (#[trigger] slot_ranges@[j]).start <= slots@[x] < slot_ranges@[j].end;
                    assert(slot_ranges@[j].end <= x1.cap());
                }
                if covers(slot_ranges@, sl) {
                    assert(slots@.contains(sl as usize));
                    let x = choose|x: int| 0 <= x < slots@.len() && slots@[x] == sl as usize;
                    assert(out@[x].index as int == rows@[x] as int);
                    assert(self.row_slot(out@[x].index as int) == sl);
                }
            }
            assert forall|x: int, sl: int| 0 <= x < out@.len() && #[trigger] xf.slots().is_free(sl) implies self.row_slot((#[trigger] out@[x]).index as int) < sl by {
                assert(out@[x].index as int == rows@[x] as int);
                assert(covers(slot_ranges@, slots@[x] as int));
            }
        }
        proof {
            self.allocator.lemma_wf();
            pre.allocator.lemma_wf();
        }
        let ghost done = *self;
        self.range_pool.give_back(instance_ranges);
        self.range_pool.give_back(slot_ranges);
        proof {
            assert(self.archetype_store == done.archetype_store);
            assert(self.instances == done.instances);
            assert(self.allocator == done.allocator);
            assert forall|x: int, c: nat| 0 <= x < out@.len() && #[trigger] self.kinds_of(out@[x]).contains(c) implies self.component(out@[x], c) == pre.store().archetypes()[a as int].default_of(c) by {
                assert(done.kinds_of(out@[x]).contains(c));
            }
        }
        out
    }

    /// Create an entity without components.
    pub fn create_entity(&mut self) -> (r: Entity)
        requires
            old(self).wf(),
            old(self).store().archetypes()[0].cap() < MAX_CAPACITY,
            old(self).has_free_row() || old(self).row_count() <= MAX_ROWS / 2,
        ensures
            final(self).live_count() == old(self).live_count() + 1,
            final(self).versions_kept(old(self)),
            final(self).wf(),
            final(self).is_valid(r),
            !old(self).live(r.index as int),
            forall|i: int| #[trigger] final(self).live(i) == (old(self).live(i) || i == r.index),
            final(self).archetype_of(r) == 0,
            final(self).kinds_of(r) == Set::<nat>::empty(),
            r.version == (if (r.index as int) < old(self).row_count() { old(self).row_version(r.index as int) } else { 1 }),
            old(self).has_free_row() ==> final(self).row_count() == old(self).row_count() && forall|i: int| 0 <= i < r.index ==> old(self).live(i),
            !old(self).has_free_row() ==> r.index == old(self).row_count() && final(self).row_count() == old(self).row_count() + (if old(self).row_count() == 0 { 1 } else { old(self).row_count() }),
            forall|e: Entity| #[trigger] old(self).is_valid(e) ==> final(self).keeps(old(self), e),
            final(self).store().kinds_seq() == old(self).store().kinds_seq(),
    {
        proof {
            self.archetype_store.lemma_wf();
        }
        self.create_entity_from_archetype(Archetype { index: 0 })
    }

    /// Every archetype has room for one more slot.
    pub open spec fn has_room(&self) -> bool {
        forall|a: int| 0 <= a < self.store().len() ==> #[trigger] self.store().archetypes()[a].cap() < MAX_CAPACITY
    }

    /// Move the entity `e` to the archetype reached by adding or removing
    /// `component`, copying the records of the kinds that both archetypes
    /// have; `None`, with nothing changed, when the transition does not
    /// apply. Returns the new archetype and slot.
    fn apply_archetype_transition(&mut self, e: &Entity, component: &ComponentType, kind: ArchetypeTransitionKind) -> (r: Option<(usize, usize)>)
        requires
            old(self).wf(),
            old(self).is_valid(*e),
            component.spec_id().valid(),
            old(self).store().len() < usize::MAX,
            old(self).has_room(),
            kind == ArchetypeTransitionKind::Add ==> old(self).store().sizes_fit(seq![*component]),
        ensures
            final(self).versions_kept(old(self)),
            final(self).row_count() == old(self).row_count(),
            final(self).live_count() == old(self).live_count(),
            final(self).wf(),
            r is None <==> !crate::archetype_store::transition_applies(old(self).kinds_of(*e), component.spec_id().spec_value(), kind),
            r is None ==> *final(self) == *old(self),
            final(self).extends(old(self)),
            final(self).store().len() <= old(self).store().len() + 1,
            forall|i: int| #[trigger] final(self).live(i) == old(self).live(i),
            forall|f: Entity| #[trigger] old(self).is_valid(f) && f.index != e.index ==> final(self).keeps(old(self), f),
            kind == ArchetypeTransitionKind::Add ==> (r matches Some((dst, slot)) ==> final(self).store().archetypes()[dst as int].record_size(component.spec_id().spec_value()) == component.spec_default().len()),
            forall|q: EntityQuery| #[trigger] final(self).store().query_sets(q) == old(self).store().query_sets(q),
            r matches Some((dst, slot)) ==> {
                &&& forall|a: int| 0 <= a < old(self).store().len() && a != dst ==> #[trigger] final(self).store().archetypes()[a].cap() == old(self).store().archetypes()[a].cap()
                &&& final(self).store().archetypes()[dst as int].cap() <= (if dst < old(self).store().len() { old(self).store().archetypes()[dst as int].cap() } else { 0 }) + 1
                &&& !final(self).store().archetypes()[old(self).archetype_of(*e) as int].slots().is_used(old(self).row_slot(e.index as int) as int)
                &&& final(self).is_valid(*e)
                &&& final(self).archetype_of(*e) == dst
                &&& final(self).row_slot(e.index as int) == slot
                &&& dst < final(self).store().len()
                &&& final(self).kinds_of(*e) == transition_target(old(self).kinds_of(*e), component.spec_id().spec_value(), kind)
                &&& forall|k: nat| #[trigger] old(self).kinds_of(*e).contains(k) && final(self).kinds_of(*e).contains(k) ==> final(self).component(*e, k) == old(self).component(*e, k)
            },
    {
        let ghost pre = *self;
        let index = e.index as usize;
        let row = self.instances[index];
        let src = row.archetype;
        proof {
            assert(pre.allocator.is_used(index as int));
            assert(pre.row_ok(index as int));
            pre.archetype_store.lemma_wf();
        }
        let t = self.archetype_store.get_archetype_transition(Archetype { index: src }, component, kind);
        let dst = match t {
            None => {
                return None;
            },
            Some(t) => t.index,
        };
        let ghost s0 = self.archetype_store;
        proof {
            s0.lemma_wf();
            assert(s0.archetypes()[src as int] == pre.archetype_store.archetypes()[src as int]) by {
                assert(s0.archetypes().subrange(0, pre.archetype_store.len() as int)[src as int] == s0.archetypes()[src as int]);
            }
            if s0.len() > pre.archetype_store.len() {
                assert(s0.archetypes()[pre.archetype_store.len() as int].cap() == 0);
            } else {
                assert(s0.archetypes().subrange(0, pre.archetype_store.len() as int) =~= s0.archetypes());
            }
            assert(dst < pre.archetype_store.len() ==> s0.archetypes()[dst as int] == pre.archetype_store.archetypes()[dst as int]) by {
                if dst < pre.archetype_store.len() {
                    assert(s0.archetypes().subrange(0, pre.archetype_store.len() as int)[dst as int] == s0.archetypes()[dst as int]);
                }
            }
        }
        let mut ranges: Vec<Range<usize>> = Vec::new();
        self.archetype_store.get_mut(dst).take_slots_no_init(1, &mut ranges);
        proof {
            ArchetypeStore::lemma_replace_keeps_wf(&s0, &self.archetype_store, dst as int);
            lemma_single_index(ranges@.subrange(0, ranges@.len() as int));
            assert(ranges@.subrange(0, ranges@.len() as int) =~= ranges@);
        }
        let dst_slot = ranges[0].start;
        let ghost s1 = self.archetype_store;
        proof {
            s1.lemma_wf();
            let d1 = s1.archetypes()[dst as int];
            d1.lemma_wf();
            assert(d1.slots().is_used(dst_slot as int)) by {
                assert(covers(ranges@, dst_slot as int));
                assert(ranges@[0].end <= d1.cap());
            }
            assert(s1.archetypes()[src as int] == s0.archetypes()[src as int]);
        }
        self.archetype_store.transfer(src, dst, row.slot, dst_slot);
        let entity = Entity { index: e.index, version: row.version };
        let ghost s2 = self.archetype_store;
        proof {
            s2.lemma_wf();
        }
        self.archetype_store.get_mut(dst).set_entity(dst_slot, entity);
        proof {
            ArchetypeStore::lemma_replace_keeps_wf(&s2, &self.archetype_store, dst as int);
        }
        self.instances.set(index, EntityInstance { slot: dst_slot, version: row.version, archetype: dst });
        proof {
            let s3 = self.archetype_store;
            s3.lemma_wf();
            let n0 = pre.archetype_store.len();
            let a0 = pre.archetype_store.archetypes();
            let a3 = s3.archetypes();
            assert(s3.len() == s0.len());
            assert forall|a: int| 0 <= a < n0 implies #[trigger] s3.kinds_seq()[a] == pre.store().kinds_seq()[a] by {
                assert(s0.archetypes().subrange(0, n0 as int)[a] == s0.archetypes()[a]);
                assert(s0.kinds_seq()[a] == s0.archetypes()[a].kinds());
            }
            assert forall|i: int| #[trigger] self.allocator.is_used(i) implies self.row_ok(i) by {
                if i != index {
                    assert(pre.row_ok(i));
                    let rw = pre.instances@[i];
                    assert(self.instances@[i] == rw);
                    let b = rw.archetype as int;
                    assert(s0.archetypes()[b] == a0[b]) by {
                        assert(s0.archetypes().subrange(0, n0 as int)[b] == s0.archetypes()[b]);
                    }
                    a0[b].lemma_wf();
                    if b == src as int {
                        assert(a0[b].entity_seq()[rw.slot as int] != a0[b].entity_seq()[row.slot as int]);
                        assert(rw.slot != row.slot);
                    }
                    if b == dst as int {
                        let d1 = s1.archetypes()[b];
                        assert(!covers(ranges@, rw.slot as int));
                        assert(rw.slot != dst_slot);
                        assert(d1.entity_seq()[rw.slot as int] == a0[b].entity_seq()[rw.slot as int]);
                    }
                } else {
                    assert(s3.archetypes()[dst as int].slots() == s1.archetypes()[dst as int].slots());
                }
            }
            assert forall|b: int, sl: int| 0 <= b < s3.len() && #[trigger] s3.archetypes()[b].slots().is_used(sl) implies self.slot_ok(b, sl) by {
                let x3 = a3[b];
                if b == dst as int && sl == dst_slot as int {
                    assert(x3.entity_seq()[sl] == entity);
                } else {
                    let d1 = s1.archetypes()[dst as int];
                    if b == dst as int {
                        assert(x3.slots() == d1.slots());
                        if covers(ranges@, sl) {
                            let j = choose|j: int| 0 <= j < ranges@.len() && (#[trigger] ranges@[j]).start <= sl < ranges@[j].end;
                            assert(j == 0);
                        }
                        assert(s0.archetypes()[b].slots().is_used(sl));
                        s0.archetypes()[b].lemma_wf();
                        assert(d1.entity_seq()[sl] == s0.archetypes()[b].entity_seq()[sl]);
                        assert(s2.archetypes()[b].entity_seq() == d1.entity_seq());
                        if b >= n0 {
                            assert(s0.archetypes()[b].cap() == 0);
                        }
                    } else if b == src as int {
                        assert(s2.archetypes()[b].slots().is_used(sl));
                        assert(sl != row.slot);
                        assert(s1.archetypes()[b] == s0.archetypes()[b]);
                    } else if b >= n0 {
                        assert(s3.archetypes()[b] == s0.archetypes()[b]);
                        assert(s0.archetypes()[b].cap() == 0);
                    } else {
                        assert(s3.archetypes()[b] == s0.archetypes()[b]);
                    }
                    if b < n0 {
                        assert(s0.archetypes()[b] == a0[b]) by {
                            assert(s0.archetypes().subrange(0, n0 as int)[b] == s0.archetypes()[b]);
                        }
                        assert(a0[b].slots().is_used(sl));
                        assert(pre.slot_ok(b, sl));
                        let ent = a0[b].entity_seq()[sl];
                        assert(x3.entity_seq()[sl] == ent);
                        assert(ent.index != e.index);
                        assert(self.instances@[ent.index as int] == pre.instances@[ent.index as int]);
                    }
                }
            }
            assert forall|f: Entity| #[trigger] pre.is_valid(f) && f.index != e.index implies self.keeps(&pre, f) by {
                assert(pre.row_ok(f.index as int));
                let rw = pre.instances@[f.index as int];
                assert(self.instances@[f.index as int] == rw);
                let b = rw.archetype as int;
                assert(s0.archetypes()[b] == a0[b]) by {
                    assert(s0.archetypes().subrange(0, n0 as int)[b] == s0.archetypes()[b]);
                }
                assert(self.store().kinds_seq()[b] == pre.store().kinds_seq()[b]);
                a0[b].lemma_wf();
                if b == src as int {
                    assert(a0[b].entity_seq()[rw.slot as int] != a0[b].entity_seq()[row.slot as int]);
                }
                if b == dst as int {
                    assert(!covers(ranges@, rw.slot as int));
                    assert(rw.slot != dst_slot);
                }
                assert forall|k: nat| #[trigger] pre.kinds_of(f).contains(k) implies self.component(f, k) == pre.component(f, k) by {
                    assert(a0[b].kinds().contains(k));
                    if b == dst as int {
                        assert(s1.archetypes()[b].value(k, rw.slot as int) == a0[b].value(k, rw.slot as int));
                        assert(s2.archetypes()[b].value(k, rw.slot as int) == s1.archetypes()[b].value(k, rw.slot as int));
                    } else if b == src as int {
                        assert(s2.archetypes()[b].columns() == s1.archetypes()[b].columns());
                    } else {
                        assert(s2.archetypes()[b] == s1.archetypes()[b]);
                    }
                }
            }
            assert forall|k: nat| #[trigger] pre.kinds_of(*e).contains(k) && self.kinds_of(*e).contains(k) implies self.component(*e, k) == pre.component(*e, k) by {
                assert(a0[src as int].kinds().contains(k));
                assert(s1.archetypes()[dst as int].kinds().contains(k));
                assert(s2.archetypes()[dst as int].value(k, dst_slot as int) == s1.archetypes()[src as int].value(k, row.slot as int));
            }
            assert(a3[dst as int].record_size(component.spec_id().spec_value()) == s0.archetypes()[dst as int].record_size(component.spec_id().spec_value()));
            assert(s3.query_entries() == s0.query_entries());
            assert forall|b: int| 0 <= b < n0 && b != dst implies #[trigger] a3[b].cap() == a0[b].cap() by {
                assert(s0.archetypes()[b] == a0[b]) by {
                    assert(s0.archetypes().subrange(0, n0 as int)[b] == s0.archetypes()[b]);
                }
            }
            if dst < n0 {
                assert(s0.archetypes()[dst as int] == a0[dst as int]) by {
                    assert(s0.archetypes().subrange(0, n0 as int)[dst as int] == s0.archetypes()[dst as int]);
                }
            }
            assert(a3[dst as int].cap() == s1.archetypes()[dst as int].cap());
            assert forall|q: EntityQuery| #[trigger] s3.query_sets(q) == pre.archetype_store.query_sets(q) by {
                assert(s0.query_sets(q) == pre.archetype_store.query_sets(q));
            }
        }
        Some((dst, dst_slot))
    }

    /// Overwrite the record of kind `id` of the entity `e` with `value`;
    /// `false`, with nothing changed, when the entity does not have that kind
    /// or `value` does not have its record size.
    pub fn set_component(&mut self, e: &Entity, id: ComponentId, value: &[u8]) -> (r: bool)
        requires
            old(self).wf(),
            old(self).is_valid(*e),
        ensures
            final(self).versions_kept(old(self)),
            final(self).row_count() == old(self).row_count(),
            final(self).live_count() == old(self).live_count(),
            final(self).wf(),
            r == (old(self).kinds_of(*e).contains(id.spec_value()) && value@.len() == old(self).store().archetypes()[old(self).archetype_of(*e) as int].record_size(id.spec_value())),
            final(self).is_valid(*e),
            final(self).archetype_of(*e) == old(self).archetype_of(*e),
            final(self).kinds_of(*e) == old(self).kinds_of(*e),
            forall|k: nat| #[trigger] old(self).kinds_of(*e).contains(k) ==> final(self).component(*e, k) == if r && k == id.spec_value() { value@ } else { old(self).component(*e, k) },
            forall|f: Entity| #[trigger] old(self).is_valid(f) && f.index != e.index ==> final(self).keeps(old(self), f),
            forall|i: int| #[trigger] final(self).live(i) == old(self).live(i),
            final(self).store().kinds_seq() == old(self).store().kinds_seq(),
    {
        let ghost pre = *self;
        let row = self.instances[e.index as usize];
        proof {
            assert(pre.allocator.is_used(e.index as int));
            assert(pre.row_ok(e.index as int));
            pre.archetype_store.lemma_wf();
            pre.archetype_store.archetypes()[row.archetype as int].lemma_wf();
        }
        let r = self.archetype_store.get_mut(row.archetype).set_component(id, row.slot, value);
        proof {
            ArchetypeStore::lemma_replace_keeps_wf(&pre.archetype_store, &self.archetype_store, row.archetype as int);
            let a0 = pre.archetype_store.archetypes();
            let a1 = self.archetype_store.archetypes();
            assert forall|i: int| #[trigger] self.allocator.is_used(i) implies self.row_ok(i) by {
                assert(pre.row_ok(i));
            }
            assert forall|f: Entity| #[trigger] pre.is_valid(f) && f.index != e.index implies self.keeps(&pre, f) by {
                assert(pre.row_ok(f.index as int));
                let rw = pre.instances@[f.index as int];
                let b = rw.archetype as int;
                a0[b].lemma_wf();
                if b == row.archetype as int {
                    assert(a0[b].entity_seq()[rw.slot as int] != a0[b].entity_seq()[row.slot as int]);
                    assert forall|k: nat| #[trigger] pre.kinds_of(f).contains(k) implies self.component(f, k) == pre.component(f, k) by {
                        assert(a0[b].kinds().contains(k));
                    }
                }
            }
            assert forall|k: nat| #[trigger] pre.kinds_of(*e).contains(k) implies self.component(*e, k) == if r && k == id.spec_value() { value@ } else { pre.component(*e, k) } by {
                assert(a0[row.archetype as int].kinds().contains(k));
            }
        }
        r
    }

    /// Add the kind of `ty`, holding `value`, to the entity `e`, moving it to
    /// the archetype with that kind added. `false`, with nothing changed,
    /// when the entity has the kind already, when `value` is not of the
    /// kind's record size, or when the archetypes that have the kind use
    /// another record size.
    pub fn add_component(&mut self, e: &Entity, ty: &ComponentType, value: &[u8]) -> (r: bool)
        requires
            old(self).wf(),
            old(self).is_valid(*e),
            ty.spec_id().valid(),
            old(self).store().len() < usize::MAX,
            old(self).has_room(),
        ensures
            final(self).versions_kept(old(self)),
            final(self).row_count() == old(self).row_count(),
            final(self).live_count() == old(self).live_count(),
            final(self).wf(),
            r == (!old(self).kinds_of(*e).contains(ty.spec_id().spec_value()) && value@.len() == ty.spec_default().len() && old(self).store().sizes_fit(seq![*ty])),
            r ==> added(old(self), final(self), *e, ty.spec_id().spec_value(), value@),
            r ==> !final(self).store().archetypes()[old(self).archetype_of(*e) as int].slots().is_used(old(self).row_slot(e.index as int) as int),
            r ==> final(self).store().sizes_fit(seq![*ty]),
            forall|q: EntityQuery| #[trigger] final(self).store().query_sets(q) == old(self).store().query_sets(q),
            r ==> forall|a: int| 0 <= a < old(self).store().len() && a != final(self).archetype_of(*e) ==> #[trigger] final(self).store().archetypes()[a].cap() == old(self).store().archetypes()[a].cap(),
            r ==> final(self).store().archetypes()[final(self).archetype_of(*e) as int].cap() <= (if final(self).archetype_of(*e) < old(self).store().len() { old(self).store().archetypes()[final(self).archetype_of(*e) as int].cap() } else { 0 }) + 1,
            !r ==> *final(self) == *old(self),
            forall|f: Entity| #[trigger] old(self).is_valid(f) && f.index != e.index ==> final(self).keeps(old(self), f),
            forall|i: int| #[trigger] final(self).live(i) == old(self).live(i),
            final(self).extends(old(self)),
    {
        let ghost pre = *self;
        let c = ty.id();
        if value.len() != ty.size() {
            return false;
        }
        match self.archetype_store.kind_size(c) {
            Some(n) => {
                if n != ty.size() {
                    proof {
                        let i = choose|i: int| 0 <= i < pre.store().len() && (#[trigger] pre.store().kinds_seq()[i]).contains(c.spec_value());
                        pre.archetype_store.lemma_wf();
                        assert(seq![*ty][0] == *ty);
                        assert(pre.store().archetypes()[i].kinds().contains(seq![*ty][0].spec_id().spec_value()));
                    }
                    return false;
                }
            },
            None => {},
        }
        proof {
            pre.archetype_store.lemma_wf();
            assert(seq![*ty][0] == *ty);
            assert forall|k: int, i: int| 0 <= k < seq![*ty].len() && 0 <= i < pre.store().len() && #[trigger] pre.store().archetypes()[i].kinds().contains(#[trigger] seq![*ty][k].spec_id().spec_value()) implies pre.store().archetypes()[i].record_size(seq![*ty][k].spec_id().spec_value()) == seq![*ty][k].spec_default().len() by {
                assert(pre.store().kinds_seq()[i].contains(c.spec_value()));
            }
        }
        match self.apply_archetype_transition(e, ty, ArchetypeTransitionKind::Add) {
            None => false,
            Some((dst, slot)) => {
                let ghost mid = *self;
                proof {
                    mid.archetype_store.lemma_wf();
                    mid.archetype_store.archetypes()[dst as int].lemma_wf();
                    assert(mid.allocator.is_used(e.index as int));
                    assert(mid.row_ok(e.index as int));
                }
                let ok = self.archetype_store.get_mut(dst).set_component(c, slot, value);
                proof {
                    ArchetypeStore::lemma_replace_keeps_wf(&mid.archetype_store, &self.archetype_store, dst as int);
                    let a0 = mid.archetype_store.archetypes();
                    assert(a0[dst as int].kinds().contains(c.spec_value()));
                    assert(ok);
                    assert forall|i: int| #[trigger] self.allocator.is_used(i) implies self.row_ok(i) by {
                        assert(mid.row_ok(i));
                    }
                    assert forall|f: Entity| #[trigger] pre.is_valid(f) && f.index != e.index implies self.keeps(&pre, f) by {
                        assert(mid.keeps(&pre, f));
                        assert(mid.row_ok(f.index as int));
                        let rw = mid.instances@[f.index as int];
                        let b = rw.archetype as int;
                        a0[b].lemma_wf();
                        if b == dst as int {
                            assert(a0[b].entity_seq()[rw.slot as int] != a0[b].entity_seq()[slot as int]);
                            assert forall|k: nat| #[trigger] mid.kinds_of(f).contains(k) implies self.component(f, k) == mid.component(f, k) by {
                                assert(a0[b].kinds().contains(k));
                            }
                        }
                    }
                    assert forall|k: nat| #[trigger] pre.kinds_of(*e).contains(k) implies self.component(*e, k) == pre.component(*e, k) by {
                        assert(mid.kinds_of(*e).contains(k));
                        assert(a0[dst as int].kinds().contains(k));
                        assert(k != c.spec_value());
                    }
                    assert(self.kinds_of(*e) == pre.kinds_of(*e).insert(c.spec_value()));
                    assert forall|i: int| #[trigger] self.live(i) == pre.live(i) by {
                        assert(mid.live(i) == pre.live(i));
                    }
                    assert(self.instances == mid.instances);
                    let sf = self.archetype_store;
                    sf.lemma_wf();
                    assert(sf.archetypes()[dst as int].record_size(c.spec_value()) == ty.spec_default().len()) by {
                        assert(a0[dst as int].record_size(c.spec_value()) == ty.spec_default().len());
                    }
                    assert(sf.kinds_seq()[dst as int].contains(c.spec_value()));
                    assert forall|k: int, i: int| 0 <= k < seq![*ty].len() && 0 <= i < sf.len() && #[trigger] sf.archetypes()[i].kinds().contains(#[trigger] seq![*ty][k].spec_id().spec_value()) implies sf.archetypes()[i].record_size(seq![*ty][k].spec_id().spec_value()) == seq![*ty][k].spec_default().len() by {
                        assert(seq![*ty][k] == *ty);
                        assert(sf.archetypes()[dst as int].kinds().contains(c.spec_value()));
                    }
                    assert(sf.query_entries() == mid.archetype_store.query_entries());
                    assert forall|q: EntityQuery| #[trigger] sf.query_sets(q) == pre.archetype_store.query_sets(q) by {
                        assert(mid.archetype_store.query_sets(q) == pre.archetype_store.query_sets(q));
                    }
                    assert forall|i: int| 0 <= i < pre.row_count() implies #[trigger] self.row_version(i) == pre.row_version(i) by {
                        assert(mid.row_version(i) == pre.row_version(i));
                    }
                }
                true
            },
        }
    }

    /// Remove the kind `id` from the entity `e`, moving it to the archetype
    /// with that kind removed; `false`, with nothing changed, when the entity
    /// does not have the kind.
    pub fn remove_component(&mut self, e: &Entity, id: ComponentId) -> (r: bool)
        requires
            old(self).wf(),
            old(self).is_valid(*e),
            id.valid(),
            old(self).store().len() < usize::MAX,
            old(self).has_room(),
        ensures
            final(self).versions_kept(old(self)),
            final(self).row_count() == old(self).row_count(),
            final(self).live_count() == old(self).live_count(),
            final(self).wf(),
            r == old(self).kinds_of(*e).contains(id.spec_value()),
            r ==> removed(old(self), final(self), *e, id.spec_value()),
            r ==> !final(self).store().archetypes()[old(self).archetype_of(*e) as int].slots().is_used(old(self).row_slot(e.index as int) as int),
            forall|q: EntityQuery| #[trigger] final(self).store().query_sets(q) == old(self).store().query_sets(q),
            r ==> forall|a: int| 0 <= a < old(self).store().len() && a != final(self).archetype_of(*e) ==> #[trigger] final(self).store().archetypes()[a].cap() == old(self).store().archetypes()[a].cap(),
            r ==> final(self).store().archetypes()[final(self).archetype_of(*e) as int].cap() <= (if final(self).archetype_of(*e) < old(self).store().len() { old(self).store().archetypes()[final(self).archetype_of(*e) as int].cap() } else { 0 }) + 1,
            !r ==> *final(self) == *old(self),
            forall|f: Entity| #[trigger] old(self).is_valid(f) && f.index != e.index ==> final(self).keeps(old(self), f),
            forall|i: int| #[trigger] final(self).live(i) == old(self).live(i),
            final(self).extends(old(self)),
    {
        let ty = ComponentType::new(id, Vec::new());
        match self.apply_archetype_transition(e, &ty, ArchetypeTransitionKind::Remove) {
            None => false,
            Some(_) => true,
        }
    }

    /// Return the slots of `slots`, all in archetype `a`, to that archetype.
    fn flush_slots(&mut self, a: usize, slots: &Vec<usize>)
        requires
            old(self).archetype_store.wf(),
            a < old(self).archetype_store.len(),
            forall|k: int| 0 <= k < slots@.len() ==> old(self).archetype_store.archetypes()[a as int].slots().is_used(#[trigger] slots@[k] as int),
        ensures
            final(self).archetype_store.wf(),
            final(self).allocator == old(self).allocator,
            final(self).instances == old(self).instances,
            final(self).bitfield == old(self).bitfield,
            final(self).archetype_store.len() == old(self).archetype_store.len(),
            final(self).archetype_store.kinds_seq() == old(self).archetype_store.kinds_seq(),
            forall|b: int| 0 <= b < old(self).archetype_store.len() && b != a ==> #[trigger] final(self).archetype_store.archetypes()[b] == old(self).archetype_store.archetypes()[b],
            ({
                let x0 = old(self).archetype_store.archetypes()[a as int];
                let x1 = final(self).archetype_store.archetypes()[a as int];
                &&& x1.same_layout(&x0)
                &&& x1.columns() == x0.columns()
                &&& x1.entity_seq() == x0.entity_seq()
                &&& x1.cap() == x0.cap()
                &&& forall|i: int| #[trigger] x1.slots().is_free(i) == (x0.slots().is_free(i) || exists|k: int| 0 <= k < slots@.len() && slots@[k] == i)
            }),
    {
        let ghost s0 = self.archetype_store;
        proof {
            s0.lemma_wf();
        }
        self.archetype_store.get_mut(a).return_slots(slots.as_slice());
        proof {
            ArchetypeStore::lemma_replace_keeps_wf(&s0, &self.archetype_store, a as int);
        }
    }

    /// Destroy the entities of `entities`, which must all be live; a handle
    /// may be listed more than once. Their slots are returned to their
    /// archetypes, their rows are freed, and the rows' generations move on,
    /// so that the handles are no longer valid.
    pub fn destroy_entities(&mut self, entities: &[Entity])
        requires
            old(self).wf(),
            forall|k: int| 0 <= k < entities@.len() ==> old(self).is_valid(#[trigger] entities@[k]),
            forall|k: int| 0 <= k < entities@.len() ==> (#[trigger] entities@[k]).version < u32::MAX,
        ensures
            final(self).store().len() == old(self).store().len(),
            forall|a: int| 0 <= a < old(self).store().len() ==> #[trigger] final(self).store().archetypes()[a].cap() == old(self).store().archetypes()[a].cap(),
            final(self).wf(),
            final(self).row_count() == old(self).row_count(),
            rows_of(entities@).finite(),
            final(self).free_row_count() == old(self).free_row_count() + rows_of(entities@).len(),
            final(self).live_count() + rows_of(entities@).len() == old(self).live_count(),
            forall|i: int| 0 <= i < old(self).row_count() ==> #[trigger] final(self).row_version(i) == if rows_of(entities@).contains(i) { old(self).row_version(i) + 1 } else { old(self).row_version(i) as int },
            forall|k: int| 0 <= k < entities@.len() ==> !final(self).store().archetypes()[old(self).archetype_of(#[trigger] entities@[k]) as int].slots().is_used(old(self).row_slot(entities@[k].index as int) as int),
            forall|k: int| 0 <= k < entities@.len() ==> !final(self).is_valid(#[trigger] entities@[k]),
            forall|i: int| #[trigger] final(self).live(i) == (old(self).live(i) && !rows_of(entities@).contains(i)),
            forall|f: Entity| #[trigger] old(self).is_valid(f) && !rows_of(entities@).contains(f.index as int) ==> final(self).keeps(old(self), f),
            final(self).store().kinds_seq() == old(self).store().kinds_seq(),
    {
        let ghost pre = *self;
        proof {
            pre.archetype_store.lemma_wf();
        }
        self.bitfield.clear();
        let mut slots: Vec<usize> = match self.slot_pool.take_one() {
            Some(v) => v,
            None => Vec::new(),
        };
        slots.clear();
        let mut last_archetype: usize = 0;
        let ghost mut flushed: Set<int> = Set::empty();
        let ghost mut owners: Seq<int> = Seq::empty();
        let mut n: usize = 0;
        while n < entities.len()
            invariant
                pre.wf(),
                forall|k: int| 0 <= k < entities@.len() ==> pre.is_valid(#[trigger] entities@[k]),
                0 <= n <= entities@.len(),
                self.allocator == pre.allocator,
                self.instances == pre.instances,
                self.bitfield.wf(),
                self.bitfield.cap() == pre.bitfield.cap(),
                self.archetype_store.wf(),
                self.archetype_store.len() == pre.archetype_store.len(),
                self.archetype_store.kinds_seq() == pre.archetype_store.kinds_seq(),
                last_archetype < pre.archetype_store.len(),
                forall|i: nat| #[trigger] self.bitfield@.contains(i) == exists|k: int| 0 <= k < n && (#[trigger] entities@[k]).index == i,
                flushed.subset_of(Set::new(|i: int| i >= 0 && self.bitfield@.contains(i as nat))),
                forall|j: int| #[trigger] flushed.contains(j) ==> pre.live(j),
                forall|j: int| j >= 0 && self.bitfield@.contains(j as nat) && !flushed.contains(j) ==> pre.instances@[j].archetype == last_archetype && slots@.contains(#[trigger] pre.instances@[j].slot),
                forall|x: int| 0 <= x < slots@.len() ==> self.archetype_store.archetypes()[last_archetype as int].slots().is_used(#[trigger] slots@[x] as int),
                owners.len() == slots@.len(),
                forall|x: int| 0 <= x < owners.len() ==> #[trigger] owners[x] >= 0 && self.bitfield@.contains(owners[x] as nat) && !flushed.contains(owners[x]) && pre.instances@[owners[x]].archetype == last_archetype && slots@[x] == pre.instances@[owners[x]].slot,
                forall|b: int| 0 <= b < pre.archetype_store.len() ==> {
                    let x0 = #[trigger] pre.archetype_store.archetypes()[b];
                    let x1 = self.archetype_store.archetypes()[b];
                    &&& x1.same_layout(&x0)
                    &&& x1.columns() == x0.columns()
                    &&& x1.entity_seq() == x0.entity_seq()
                    &&& x1.cap() == x0.cap()
                    &&& forall|i: int| #[trigger] x1.slots().is_free(i) == (x0.slots().is_free(i) || exists|j: int| flushed.contains(j) && pre.instances@[j].archetype == b && pre.instances@[j].slot == i)
                },
            decreases entities@.len() - n,
        {
            let e = entities[n];
            let index = e.index as usize;
            proof {
                assert(pre.is_valid(entities@[n as int]));
                assert(pre.allocator.is_used(index as int));
                assert(pre.row_ok(index as int));
                assert(index < pre.allocator.cap());
            }
            let row = self.instances[index];
            let seen = self.bitfield.get(index);
            let ghost old_slots = slots@;
            let ghost old_bits = self.bitfield@;
            let ghost old_last = last_archetype;
            let ghost old_flushed = flushed;
            if !seen {
                if row.archetype != last_archetype && slots.len() > 0 {
                    self.flush_slots(last_archetype, &slots);
                    proof {
                        let old_flushed = flushed;
                        flushed = Set::new(|i: int| i >= 0 && self.bitfield@.contains(i as nat));
                        assert forall|b: int| 0 <= b < pre.archetype_store.len() implies {
                            let x0 = #[trigger] pre.archetype_store.archetypes()[b];
                            let x1 = self.archetype_store.archetypes()[b];
                            &&& x1.same_layout(&x0)
                            &&& x1.columns() == x0.columns()
                            &&& x1.entity_seq() == x0.entity_seq()
                            &&& x1.cap() == x0.cap()
                            &&& forall|i: int| #[trigger] x1.slots().is_free(i) == (x0.slots().is_free(i) || exists|j: int| flushed.contains(j) && pre.instances@[j].archetype == b && pre.instances@[j].slot == i)
                        } by {
                            let x0 = pre.archetype_store.archetypes()[b];
                            let x1 = self.archetype_store.archetypes()[b];
                            assert forall|i: int| #[trigger] x1.slots().is_free(i) == (x0.slots().is_free(i) || exists|j: int| flushed.contains(j) && pre.instances@[j].archetype == b && pre.instances@[j].slot == i) by {
                                if exists|j: int| flushed.contains(j) && pre.instances@[j].archetype == b && pre.instances@[j].slot == i {
                                    let j = choose|j: int| flushed.contains(j) && pre.instances@[j].archetype == b && pre.instances@[j].slot == i;
                                    if !old_flushed.contains(j) {
                                        assert(slots@.contains(pre.instances@[j].slot));
                                    }
                                }
                                if b == last_archetype as int {
                                    if exists|k: int| 0 <= k < slots@.len() && slots@[k] == i {
                                        let k = choose|k: int| 0 <= k < slots@.len() && slots@[k] == i;
                                        let j = owners[k];
                                        assert(flushed.contains(j));
                                    }
                                }
                            }
                        }
                        assert forall|j: int| #[trigger] flushed.contains(j) implies pre.live(j) by {
                            let kk = choose|kk: int| 0 <= kk < n && (#[trigger] entities@[kk]).index == j as nat;
                            assert(pre.is_valid(entities@[kk]));
                        }
                    }
                    slots.clear();
                    proof {
                        owners = Seq::empty();
                    }
                }
                proof {
                    let b = row.archetype as int;
                    pre.archetype_store.lemma_wf();
                    let x0 = pre.archetype_store.archetypes()[b];
                    x0.lemma_wf();
                    let x1 = self.archetype_store.archetypes()[b];
                    if exists|j: int| flushed.contains(j) && pre.instances@[j].archetype == b && pre.instances@[j].slot == row.slot {
                        let j = choose|j: int| flushed.contains(j) && pre.instances@[j].archetype == b && pre.instances@[j].slot == row.slot;
                        assert(pre.row_ok(j));
                        assert(j != index);
                    }
                    assert(x1.slots().is_used(row.slot as int));
                }
                self.bitfield.set(index, true);
                last_archetype = row.archetype;
                slots.push(row.slot);
                proof {
                    owners = owners.push(index as int);
                }
            }
            proof {
                assert forall|i: nat| #[trigger] self.bitfield@.contains(i) == exists|k: int| 0 <= k < n + 1 && (#[trigger] entities@[k]).index == i by {
                    if i == index as nat {
                        assert(entities@[n as int].index == i);
                    }
                    if exists|k: int| 0 <= k < n + 1 && (#[trigger] entities@[k]).index == i {
                        let k = choose|k: int| 0 <= k < n + 1 && (#[trigger] entities@[k]).index == i;
                        if k < n {
                        } else {
                            assert(i == index);
                        }
                    }
                }
                assert forall|j: int| #[trigger] flushed.contains(j) implies pre.live(j) by {
                }
                if !seen {
                    assert(slots@[slots@.len() - 1] == row.slot);
                    assert forall|j: int| j >= 0 && self.bitfield@.contains(j as nat) && !flushed.contains(j) implies pre.instances@[j].archetype == last_archetype && slots@.contains(#[trigger] pre.instances@[j].slot) by {
                        if j == index as int {
                            assert(slots@[slots@.len() - 1] == pre.instances@[j].slot);
                        } else {
                            assert(old_bits.contains(j as nat));
                            if flushed == old_flushed {
                                assert(old_slots.contains(pre.instances@[j].slot));
                                let x = choose|x: int| 0 <= x < old_slots.len() && old_slots[x] == pre.instances@[j].slot;
                                assert(slots@[x] == old_slots[x]);
                            }
                        }
                    }
                    assert forall|x: int| 0 <= x < slots@.len() implies self.archetype_store.archetypes()[last_archetype as int].slots().is_used(#[trigger] slots@[x] as int) by {
                        if x < slots@.len() - 1 {
                            assert(old_slots.len() > 0);
                            assert(row.archetype == old_last);
                            assert(slots@[x] == old_slots[x]);
                        }
                    }
                    assert forall|x: int| 0 <= x < owners.len() implies #[trigger] owners[x] >= 0 && self.bitfield@.contains(owners[x] as nat) && !flushed.contains(owners[x]) && pre.instances@[owners[x]].archetype == last_archetype && slots@[x] == pre.instances@[owners[x]].slot by {
                        if x < owners.len() - 1 {
                            assert(old_slots.len() > 0);
                            assert(row.archetype == old_last);
                            assert(flushed == old_flushed);
                            assert(slots@[x] == old_slots[x]);
                        } else {
                            assert(!old_bits.contains(index as nat));
                        }
                    }
                }
            }
            n += 1;
        }
        if slots.len() > 0 {
            self.flush_slots(last_archetype, &slots);
            proof {
                let old_flushed = flushed;
                flushed = Set::new(|i: int| i >= 0 && self.bitfield@.contains(i as nat));
                assert forall|b: int| 0 <= b < pre.archetype_store.len() implies {
                    let x0 = #[trigger] pre.archetype_store.archetypes()[b];
                    let x1 = self.archetype_store.archetypes()[b];
                    &&& x1.same_layout(&x0)
                    &&& x1.columns() == x0.columns()
                    &&& x1.entity_seq() == x0.entity_seq()
                    &&& x1.cap() == x0.cap()
                    &&& forall|i: int| #[trigger] x1.slots().is_free(i) == (x0.slots().is_free(i) || exists|j: int| flushed.contains(j) && pre.instances@[j].archetype == b && pre.instances@[j].slot == i)
                } by {
                    let x0 = pre.archetype_store.archetypes()[b];
                    let x1 = self.archetype_store.archetypes()[b];
                    assert forall|i: int| #[trigger] x1.slots().is_free(i) == (x0.slots().is_free(i) || exists|j: int| flushed.contains(j) && pre.instances@[j].archetype == b && pre.instances@[j].slot == i) by {
                        if exists|j: int| flushed.contains(j) && pre.instances@[j].archetype == b && pre.instances@[j].slot == i {
                            let j = choose|j: int| flushed.contains(j) && pre.instances@[j].archetype == b && pre.instances@[j].slot == i;
                            if !old_flushed.contains(j) {
                                assert(slots@.contains(pre.instances@[j].slot));
                            }
                        }
                        if b == last_archetype as int {
                            if exists|k: int| 0 <= k < slots@.len() && slots@[k] == i {
                                let k = choose|k: int| 0 <= k < slots@.len() && slots@[k] == i;
                                let j = owners[k];
                                assert(flushed.contains(j));
                            }
                        }
                    }
                }
                assert forall|j: int| #[trigger] flushed.contains(j) implies pre.live(j) by {
                    let kk = choose|kk: int| 0 <= kk < n && (#[trigger] entities@[kk]).index == j as nat;
                    assert(pre.is_valid(entities@[kk]));
                }
            }
        }
        proof {
            if slots@.len() == 0 {
                assert forall|j: int| j >= 0 && self.bitfield@.contains(j as nat) implies flushed.contains(j) by {
                    if !flushed.contains(j) {
                        assert(slots@.contains(pre.instances@[j].slot));
                    }
                }
            }
            assert forall|j: int| j >= 0 && self.bitfield@.contains(j as nat) implies #[trigger] flushed.contains(j) by {
                if !flushed.contains(j) && slots@.len() == 0 {
                    assert(slots@.contains(pre.instances@[j].slot));
                }
            }
        }
        let ghost mid = *self;
        let ghost dead: Set<int> = flushed;
        let ranges = self.bitfield.iter_ranges();
        let mut k: usize = 0;
        while k < ranges.len()
            invariant
                pre.wf(),
                mid.archetype_store == self.archetype_store,
                self.archetype_store.wf(),
                self.bitfield == mid.bitfield,
                self.allocator.wf(),
                self.allocator.cap() == pre.allocator.cap(),
                self.instances@.len() == pre.instances@.len(),
                0 <= k <= ranges@.len(),
                crate::ranges::separated(ranges@),
                forall|i: nat| #[trigger] mid.bitfield@.contains(i) <==> covers(ranges@, i as int),
                forall|i: int| #[trigger] dead.contains(i) == (i >= 0 && mid.bitfield@.contains(i as nat)),
                forall|j: int| #[trigger] dead.contains(j) ==> pre.live(j),
                forall|i: int| #[trigger] self.allocator.is_used(i) == (pre.allocator.is_used(i) && !covers(ranges@.subrange(0, k as int), i)),
                forall|i: int| 0 <= i < pre.instances@.len() ==> (#[trigger] self.instances@[i]).slot == pre.instances@[i].slot && self.instances@[i].archetype == pre.instances@[i].archetype,
                forall|i: int| 0 <= i < pre.instances@.len() && !covers(ranges@.subrange(0, k as int), i) ==> (#[trigger] self.instances@[i]).version == pre.instances@[i].version,
                forall|i: int| 0 <= i < pre.instances@.len() && covers(ranges@.subrange(0, k as int), i) ==> (#[trigger] self.instances@[i]).version == pre.instances@[i].version + 1,
                forall|i: int| #[trigger] dead.contains(i) ==> pre.instances@[i].version < u32::MAX,
            decreases ranges@.len() - k,
        {
            let r = Range { start: ranges[k].start, end: ranges[k].end };
            proof {
                assert forall|x: int| r.start <= x < r.end implies self.allocator.is_used(x) by {
                    assert(covers(ranges@, x));
                    assert(mid.bitfield@.contains(x as nat));
                    assert(dead.contains(x));
                    assert(pre.live(x));
                    if covers(ranges@.subrange(0, k as int), x) {
                        let j = choose|j: int| 0 <= j < k && (#[trigger] ranges@.subrange(0, k as int)[j]).start <= x < ranges@.subrange(0, k as int)[j].end;
                        assert(ranges@[j].end < ranges@[k as int].start);
                    }
                }
            }
            proof {
                if r.start < r.end {
                    assert(self.allocator.is_used(r.end - 1));
                }
                assert(ranges@[k as int].start < ranges@[k as int].end);
            }
            proof {
                assert forall|x: int| r.start <= x < r.end implies pre.instances@[x].version < u32::MAX by {
                    assert(covers(ranges@, x));
                    assert(mid.bitfield@.contains(x as nat));
                    assert(dead.contains(x));
                }
            }
            let ghost alloc_k = self.allocator;
            let mut i = r.start;
            while i < r.end
                invariant
                    self.archetype_store == mid.archetype_store,
                    self.bitfield == mid.bitfield,
                    self.allocator == alloc_k,
                    pre.instances@.len() == pre.allocator.cap(),
                    k < ranges@.len(),
                    r.start <= i <= r.end,
                    r.end <= pre.allocator.cap(),
                    self.instances@.len() == pre.instances@.len(),
                    self.allocator.wf(),
                    forall|x: int| r.start <= x < r.end ==> self.allocator.is_used(x),
                    forall|x: int| 0 <= x < pre.instances@.len() ==> (#[trigger] self.instances@[x]).slot == pre.instances@[x].slot && self.instances@[x].archetype == pre.instances@[x].archetype,
                    forall|x: int| 0 <= x < pre.instances@.len() && !covers(ranges@.subrange(0, k as int), x) && !(r.start <= x < i) ==> (#[trigger] self.instances@[x]).version == pre.instances@[x].version,
                    forall|x: int| 0 <= x < pre.instances@.len() && (covers(ranges@.subrange(0, k as int), x) || (r.start <= x < i)) ==> (#[trigger] self.instances@[x]).version == pre.instances@[x].version + 1,
                    forall|x: int| r.start <= x < r.end ==> pre.instances@[x].version < u32::MAX,
                    forall|x: int| r.start <= x < r.end ==> !covers(ranges@.subrange(0, k as int), x),
                decreases r.end - i,
            {
                let mut row = self.instances[i];
                row.version = row.version + 1;
                self.instances.set(i, row);
                i += 1;
            }
            proof {
                assert(r.end <= self.allocator.cap()) by {
                    assert(self.allocator.is_used(r.end - 1));
                }
            }
            self.allocator.free(r);
            proof {
                assert(ranges@.subrange(0, k + 1) =~= ranges@.subrange(0, k as int).push(ranges@[k as int]));
                assert forall|x: int| #[trigger] self.allocator.is_used(x) == (pre.allocator.is_used(x) && !covers(ranges@.subrange(0, k + 1), x)) by {
                    lemma_covers_push(ranges@.subrange(0, k as int), ranges@[k as int], x);
                    assert(alloc_k.is_used(x) == (pre.allocator.is_used(x) && !covers(ranges@.subrange(0, k as int), x)));
                    assert(self.allocator.cap() == alloc_k.cap());
                    assert(self.allocator.is_free(x) == (alloc_k.is_free(x) || (r.start <= x < r.end)));
                }
                assert forall|x: int| 0 <= x < pre.instances@.len() && !covers(ranges@.subrange(0, k + 1), x) implies (#[trigger] self.instances@[x]).version == pre.instances@[x].version by {
                    lemma_covers_push(ranges@.subrange(0, k as int), ranges@[k as int], x);
                }
                assert forall|x: int| 0 <= x < pre.instances@.len() && covers(ranges@.subrange(0, k + 1), x) implies (#[trigger] self.instances@[x]).version == pre.instances@[x].version + 1 by {
                    lemma_covers_push(ranges@.subrange(0, k as int), ranges@[k as int], x);
                }
            }
            k += 1;
        }
        proof {
            assert(ranges@.subrange(0, ranges@.len() as int) =~= ranges@);
            assert forall|i: int| #[trigger] dead.contains(i) == rows_of(entities@).contains(i) by {
                if rows_of(entities@).contains(i) {
                    let kk = choose|kk: int| 0 <= kk < entities@.len() && (#[trigger] entities@[kk]).index == i;
                    assert(mid.bitfield@.contains(i as nat));
                }
                if dead.contains(i) {
                    assert(mid.bitfield@.contains(i as nat));
                    let kk = choose|kk: int| 0 <= kk < entities@.len() && (#[trigger] entities@[kk]).index == i as nat;
                }
            }
            assert forall|i: int| #[trigger] self.allocator.is_used(i) == (pre.allocator.is_used(i) && !dead.contains(i)) by {
                if covers(ranges@, i) {
                    let j = choose|j: int| 0 <= j < ranges@.len() && (#[trigger] ranges@[j]).start <= i < ranges@[j].end;
                    assert(i >= 0);
                    assert(mid.bitfield@.contains(i as nat));
                }
                if i >= 0 && mid.bitfield@.contains(i as nat) {
                    assert(covers(ranges@, i));
                }
            }
            let s = self.archetype_store;
            assert forall|i: int| #[trigger] self.allocator.is_used(i) implies self.row_ok(i) by {
                assert(pre.row_ok(i));
                assert(!dead.contains(i));
                let rw = pre.instances@[i];
                let b = rw.archetype as int;
                let x0 = pre.archetype_store.archetypes()[b];
                x0.lemma_wf();
                if exists|j: int| flushed.contains(j) && pre.instances@[j].archetype == b && pre.instances@[j].slot == rw.slot {
                    let j = choose|j: int| flushed.contains(j) && pre.instances@[j].archetype == b && pre.instances@[j].slot == rw.slot;
                    assert(pre.row_ok(j));
                    assert(j != i);
                }
                assert(!covers(ranges@, i));
            }
            assert forall|b: int, sl: int| 0 <= b < s.len() && #[trigger] s.archetypes()[b].slots().is_used(sl) implies self.slot_ok(b, sl) by {
                let x0 = pre.archetype_store.archetypes()[b];
                x0.lemma_wf();
                assert(!(exists|j: int| flushed.contains(j) && pre.instances@[j].archetype == b && pre.instances@[j].slot == sl));
                assert(x0.slots().is_used(sl));
                assert(pre.slot_ok(b, sl));
                let ent = x0.entity_seq()[sl];
                assert(pre.row_ok(ent.index as int));
                if dead.contains(ent.index as int) {
                    assert(flushed.contains(ent.index as int));
                }
                assert(!covers(ranges@, ent.index as int));
            }
            assert forall|f: Entity| #[trigger] pre.is_valid(f) && !rows_of(entities@).contains(f.index as int) implies self.keeps(&pre, f) by {
                assert(pre.row_ok(f.index as int));
                assert(!dead.contains(f.index as int));
                assert(!covers(ranges@, f.index as int));
                let b = pre.instances@[f.index as int].archetype as int;
                assert(s.kinds_seq()[b] == pre.store().kinds_seq()[b]);
                assert forall|c: nat| #[trigger] pre.kinds_of(f).contains(c) implies self.component(f, c) == pre.component(f, c) by {
                    assert(s.archetypes()[b].columns() == pre.archetype_store.archetypes()[b].columns());
                }
            }
            assert forall|k2: int| 0 <= k2 < entities@.len() implies !self.is_valid(#[trigger] entities@[k2]) by {
                assert(dead.contains(entities@[k2].index as int));
            }
        }
        self.slot_pool.give_back(slots);
        proof {
            let d = rows_of(entities@);
            pre.lemma_live_count();
            self.lemma_live_count();
            assert(d.subset_of(pre.live_rows())) by {
                assert forall|i: int| d.contains(i) implies pre.live_rows().contains(i) by {
                    let k = choose|k: int| 0 <= k < entities@.len() && (#[trigger] entities@[k]).index == i;
                    assert(pre.is_valid(entities@[k]));
                }
            }
            vstd::set_lib::lemma_len_subset(d, pre.live_rows());
            assert(pre.live_rows() =~= self.live_rows() + d);
            assert(self.live_rows().disjoint(d));
            vstd::set_lib::lemma_set_disjoint_lens(self.live_rows(), d);
            self.allocator.lemma_wf();
            pre.allocator.lemma_wf();
        }
    }

    /// The live slots, as (archetype, slot) pairs, of the archetypes that
    /// match `query`: archetype by archetype in the order of the query's
    /// match list, and within an archetype in ascending slot order. Each
    /// pair appears once. `data` holds the query's sets, which the store
    /// caches on first use.
    pub fn query_slots(&mut self, query: EntityQuery, data: &EntityQueryData) -> (r: Vec<(usize, usize)>)
        requires
            old(self).wf(),
            data.wf(),
        ensures
            final(self).versions_kept(old(self)),
            final(self).row_count() == old(self).row_count(),
            final(self).live_count() == old(self).live_count(),
            final(self).wf(),
            final(self).store().archetypes() == old(self).store().archetypes(),
            forall|e: Entity| #[trigger] old(self).is_valid(e) ==> final(self).keeps(old(self), e),
            forall|i: int| #[trigger] final(self).live(i) == old(self).live(i),
            final(self).store().query_sets(query) is Some,
            ({
                let sets = final(self).store().query_sets(query).unwrap();
                let m = matching(final(self).store().kinds_seq(), sets.0, sets.1);
                &&& forall|x: int| 0 <= x < r@.len() ==> m.contains((#[trigger] r@[x]).0) && final(self).store().archetypes()[r@[x].0 as int].slots().is_used(r@[x].1 as int)
                &&& forall|a: usize, sl: int| m.contains(a) && final(self).store().archetypes()[a as int].slots().is_used(sl) ==> r@.contains((a, sl as usize))
                &&& forall|x: int, y: int| 0 <= x < y < r@.len() ==> r@[x].0 < r@[y].0 || (r@[x].0 == r@[y].0 && r@[x].1 < r@[y].1)
                &&& forall|x: int, y: int| 0 <= x < y < m.len() ==> m[x] < m[y]
            }),
    {
        let ghost pre = *self;
        let matches = self.archetype_store.query(query, data);
        let ghost st = self.archetype_store;
        let ghost sets = st.query_sets(query).unwrap();
        let ghost m = matching(st.kinds_seq(), sets.0, sets.1);
        proof {
            st.lemma_wf();
            assert forall|i: int| #[trigger] self.allocator.is_used(i) implies self.row_ok(i) by {
                assert(pre.row_ok(i));
            }
            assert forall|x: int| 0 <= x < matches@.len() implies (#[trigger] matches@[x]) < st.len() by {
                crate::archetype_store::lemma_matching_iff(st.kinds_seq(), sets.0, sets.1, 0);
                assert(m.contains(matches@[x]));
            }
            lemma_matching_sorted(st.kinds_seq(), sets.0, sets.1);
        }
        let mut out: Vec<(usize, usize)> = Vec::new();
        let mut k: usize = 0;
        while k < matches.len()
            invariant
                self.archetype_store == st,
                st.wf(),
                matches@ == m,
                0 <= k <= matches@.len(),
                forall|x: int| 0 <= x < matches@.len() ==> (#[trigger] matches@[x]) < st.len(),
                forall|x: int, y: int| 0 <= x < y < matches@.len() ==> matches@[x] < matches@[y],
                forall|x: int| 0 <= x < out@.len() ==> matches@.contains((#[trigger] out@[x]).0) && st.archetypes()[out@[x].0 as int].slots().is_used(out@[x].1 as int),
                k < matches@.len() ==> forall|x: int| 0 <= x < out@.len() ==> (#[trigger] out@[x]).0 < matches@[k as int],
                forall|y: int, sl: int| 0 <= y < k && st.archetypes()[matches@[y] as int].slots().is_used(sl) ==> #[trigger] out@.contains((matches@[y], sl as usize)),
                forall|x: int, y: int| 0 <= x < y < out@.len() ==> out@[x] != out@[y],
                forall|x: int, y: int| 0 <= x < y < out@.len() ==> out@[x].0 < out@[y].0 || (out@[x].0 == out@[y].0 && out@[x].1 < out@[y].1),
            decreases matches@.len() - k,
        {
            let a = matches[k];
            proof {
                st.lemma_wf();
                st.archetypes()[a as int].lemma_wf();
            }
            let used = self.archetype_store.get(a).used_ranges();
            let ghost out0 = out@;
            proof {
                assert(out@.subrange(0, out0.len() as int) =~= out0);
            }
            let mut j: usize = 0;
            while j < used.len()
                invariant
                    self.archetype_store == st,
                    st.wf(),
                    a == matches@[k as int],
                    k < matches@.len(),
                    a < st.len(),
                    0 <= j <= used@.len(),
                    crate::ranges::separated(used@),
                    forall|i: int| #[trigger] covers(used@, i) == st.archetypes()[a as int].slots().is_used(i),
                    forall|x: int| 0 <= x < matches@.len() ==> (#[trigger] matches@[x]) < st.len(),
                    forall|x: int, y: int| 0 <= x < y < matches@.len() ==> matches@[x] < matches@[y],
                    out@.subrange(0, out0.len() as int) == out0,
                    out@.len() >= out0.len(),
                    forall|x: int| 0 <= x < out0.len() ==> (#[trigger] out0[x]).0 < a,
                    forall|x: int| 0 <= x < out@.len() ==> matches@.contains((#[trigger] out@[x]).0),
                    forall|x: int| out0.len() <= x < out@.len() ==> (#[trigger] out@[x]).0 == a && covers(used@.subrange(0, j as int), out@[x].1 as int),
                    forall|x: int| 0 <= x < out@.len() ==> st.archetypes()[(#[trigger] out@[x]).0 as int].slots().is_used(out@[x].1 as int),
                    forall|i: int| covers(used@.subrange(0, j as int), i) ==> #[trigger] out@.contains((a, i as usize)),
                    forall|x: int, y: int| 0 <= x < y < out@.len() ==> out@[x] != out@[y],
                    forall|x: int, y: int| out0.len() <= x < y < out@.len() ==> out@[x].1 < out@[y].1,
                    forall|x: int, y: int| 0 <= x < y < out@.len() ==> out@[x].0 < out@[y].0 || (out@[x].0 == out@[y].0 && out@[x].1 < out@[y].1),
                    forall|x: int| out0.len() <= x < out@.len() ==> (#[trigger] out@[x]).1 < (if j < used@.len() { used@[j as int].start as int } else { usize::MAX as int }),
                decreases used@.len() - j,
            {
                let r = Range { start: used[j].start, end: used[j].end };
                let mut sl = r.start;
                let ghost out1 = out@;
                proof {
                    assert forall|x: int| out0.len() <= x < out@.len() implies (#[trigger] out@[x]).1 < r.start by {}
                }
                while sl < r.end
                    invariant
                        self.archetype_store == st,
                        a < st.len(),
                        r.start <= sl <= r.end,
                        r == used@[j as int],
                        j < used@.len(),
                        forall|i: int| #[trigger] covers(used@, i) == st.archetypes()[a as int].slots().is_used(i),
                        out@.subrange(0, out1.len() as int) == out1,
                        out@.len() == out1.len() + (sl - r.start),
                        forall|x: int| out1.len() <= x < out@.len() ==> (#[trigger] out@[x]) == (a, (r.start + (x - out1.len())) as usize),
                    decreases r.end - sl,
                {
                    out.push((a, sl));
                    sl += 1;
                }
                proof {
                    let sub0 = used@.subrange(0, j as int);
                    let sub1 = used@.subrange(0, j + 1);
                    assert(sub1 =~= sub0.push(used@[j as int]));
                    assert forall|x: int| 0 <= x < out1.len() implies #[trigger] out@[x] == out1[x] by {
                        assert(out@.subrange(0, out1.len() as int)[x] == out1[x]);
                    }
                    assert(out@.subrange(0, out0.len() as int) =~= out0) by {
                        assert forall|x: int| 0 <= x < out0.len() implies out@[x] == out0[x] by {
                            assert(out1.subrange(0, out0.len() as int)[x] == out0[x]);
                        }
                    }
                    assert forall|x: int| 0 <= x < out@.len() implies matches@.contains((#[trigger] out@[x]).0) by {
                        if x >= out1.len() {
                            assert(matches@[k as int] == a);
                        } else {
                            assert(out@[x] == out1[x]);
                        }
                    }
                    assert forall|x: int| out0.len() <= x < out@.len() implies (#[trigger] out@[x]).0 == a && covers(sub1, out@[x].1 as int) by {
                        lemma_covers_push(sub0, used@[j as int], out@[x].1 as int);
                    }
                    assert forall|x: int| 0 <= x < out@.len() implies st.archetypes()[(#[trigger] out@[x]).0 as int].slots().is_used(out@[x].1 as int) by {
                        if x >= out1.len() {
                            assert(covers(used@, out@[x].1 as int));
                        }
                    }
                    assert forall|i: int| covers(sub1, i) implies #[trigger] out@.contains((a, i as usize)) by {
                        lemma_covers_push(sub0, used@[j as int], i);
                        if covers(sub0, i) {
                            assert(out1.contains((a, i as usize)));
                            let x = choose|x: int| 0 <= x < out1.len() && out1[x] == (a, i as usize);
                            assert(out@[x] == out1[x]);
                        } else {
                            let x = out1.len() + (i - r.start);
                            assert(out@[x] == (a, i as usize));
                        }
                    }
                    assert forall|x: int, y: int| 0 <= x < y < out@.len() implies out@[x] != out@[y] by {
                        if y >= out1.len() && x < out1.len() {
                            if x >= out0.len() {
                                assert(out1[x].1 < r.start);
                            } else {
                                assert(out@[x] == out0[x]);
                            }
                        } else if x < out1.len() {
                            assert(out@[x] == out1[x] && out@[y] == out1[y]);
                        }
                    }
                    assert forall|x: int, y: int| 0 <= x < y < out@.len() implies out@[x].0 < out@[y].0 || (out@[x].0 == out@[y].0 && out@[x].1 < out@[y].1) by {
                        if y < out1.len() {
                            assert(out@[x] == out1[x] && out@[y] == out1[y]);
                        } else if x < out1.len() {
                            assert(out@[x] == out1[x]);
                            if x < out0.len() {
                                assert(out@[x] == out0[x]) by {
                                    assert(out1.subrange(0, out0.len() as int)[x] == out0[x]);
                                }
                            } else {
                                assert(out1[x].1 < r.start);
                            }
                        }
                    }
                    assert forall|x: int, y: int| out0.len() <= x < y < out@.len() implies out@[x].1 < out@[y].1 by {
                        if x < out1.len() && y >= out1.len() {
                            assert(out1[x].1 < r.start);
                        } else if y < out1.len() {
                            assert(out@[x] == out1[x] && out@[y] == out1[y]);
                        }
                    }
                    if j + 1 < used@.len() {
                        assert(used@[j as int].end < used@[j + 1].start);
                    }
                    assert forall|x: int| out0.len() <= x < out@.len() implies (#[trigger] out@[x]).1 < (if j + 1 < used@.len() { used@[j + 1].start as int } else { usize::MAX as int }) by {
                        if x < out1.len() {
                            assert(out@[x] == out1[x]);
                            assert(out1[x].1 < r.start);
                        }
                    }
                }
                j += 1;
            }
            proof {
                assert(used@.subrange(0, used@.len() as int) =~= used@);
                assert forall|x: int| 0 <= x < out@.len() && k + 1 < matches@.len() implies (#[trigger] out@[x]).0 < matches@[k + 1] by {
                    assert(matches@[k as int] < matches@[k + 1]);
                    if x < out0.len() {
                        assert(out@[x] == out0[x]) by {
                            assert(out@.subrange(0, out0.len() as int)[x] == out0[x]);
                        }
                    }
                }
                assert forall|y: int, sl: int| 0 <= y < k + 1 && st.archetypes()[matches@[y] as int].slots().is_used(sl) implies #[trigger] out@.contains((matches@[y], sl as usize)) by {
                    if y < k {
                        assert(out0.contains((matches@[y], sl as usize)));
                        let x = choose|x: int| 0 <= x < out0.len() && out0[x] == (matches@[y], sl as usize);
                        assert(out@.subrange(0, out0.len() as int)[x] == out0[x]);
                    } else {
                        assert(covers(used@, sl));
                    }
                }
            }
            k += 1;
        }
        proof {
            lemma_matching_sorted(st.kinds_seq(), sets.0, sets.1);
            assert forall|a: usize, sl: int| m.contains(a) && st.archetypes()[a as int].slots().is_used(sl) implies out@.contains((a, sl as usize)) by {
                let y = choose|y: int| 0 <= y < m.len() && m[y] == a;
                assert(out@.contains((matches@[y], sl as usize)));
            }
            assert forall|e: Entity| #[trigger] pre.is_valid(e) implies self.keeps(&pre, e) by {}
        }
        out
    }

    /// The number of live entities.
    pub closed spec fn live_count(&self) -> nat {
        (self.allocator.cap() - self.allocator.free_len()) as nat
    }

    /// The store and every archetype of a well-formed registry are well
    /// formed.
    pub proof fn lemma_store_wf(&self)
        requires
            self.wf(),
        ensures
            self.store().wf(),
            forall|a: int| 0 <= a < self.store().len() ==> #[trigger] self.store().archetypes()[a].wf(),
    {
        self.archetype_store.lemma_wf();
    }

    /// The rows that hold live entities.
    pub open spec fn live_rows(&self) -> Set<int> {
        Set::new(|i: int| self.live(i))
    }

    /// The number of live entities is the number of live rows.
    pub proof fn lemma_live_count(&self)
        requires
            self.wf(),
        ensures
            self.live_rows().finite(),
            self.live_rows().len() == self.live_count(),
            self.free_row_count() + self.live_rows().len() == self.row_count(),
            forall|i: int| #[trigger] self.live(i) ==> 0 <= i < self.row_count(),
    {
        crate::range_allocator::lemma_used_len(&self.allocator);
        self.allocator.lemma_wf();
        assert(self.live_rows() =~= Set::new(|i: int| self.allocator.is_used(i)));
    }

    /// The number of live entities.
    pub fn entity_count(&self) -> (r: usize)
        requires
            self.wf(),
        ensures
            r == self.live_count(),
            r == self.live_rows().len(),
    {
        proof {
            self.allocator.lemma_wf();
            self.lemma_live_count();
        }
        self.allocator.capacity() - self.allocator.available()
    }

    /// A live entity's slot is live in its archetype, and the archetype
    /// records the entity at that slot.
    pub proof fn lemma_live_slot(&self, e: Entity)
        requires
            self.wf(),
            self.is_valid(e),
        ensures
            self.archetype_of(e) < self.store().len(),
            self.store().archetypes()[self.archetype_of(e) as int].slots().is_used(self.row_slot(e.index as int) as int),
            self.store().archetypes()[self.archetype_of(e) as int].entity_seq()[self.row_slot(e.index as int) as int] == e,
    {
        assert(self.row_ok(e.index as int));
    }

    /// The archetype for the kinds of `components`, created when no
    /// archetype has them yet, and grown to at least `min_capacity` slots.
    pub fn create_archetype_with_capacity(&mut self, components: &[ComponentType], min_capacity: usize) -> (r: Archetype)
        requires
            old(self).wf(),
            forall|k: int| 0 <= k < components@.len() ==> (#[trigger] components@[k]).spec_id().valid(),
            min_capacity <= MAX_CAPACITY,
            old(self).store().len() < usize::MAX,
            old(self).store().sizes_fit(components@),
        ensures
            final(self).versions_kept(old(self)),
            final(self).row_count() == old(self).row_count(),
            final(self).live_count() == old(self).live_count(),
            final(self).wf(),
            r.index < final(self).store().len(),
            final(self).store().kinds_seq()[r.index as int] == id_set(type_ids(components@)),
            final(self).store().archetypes()[r.index as int].cap() >= min_capacity,
            r.index < old(self).store().len() ==> final(self).store().archetypes()[r.index as int].cap() == (if min_capacity > old(self).store().archetypes()[r.index as int].cap() { min_capacity as nat } else { old(self).store().archetypes()[r.index as int].cap() }),
            r.index >= old(self).store().len() ==> final(self).store().archetypes()[r.index as int].cap() == min_capacity,
            forall|q: EntityQuery| #[trigger] final(self).store().query_sets(q) == old(self).store().query_sets(q),
            final(self).store().sizes_fit(components@),
            r.index >= old(self).store().len() ==> forall|c: nat| #[trigger] final(self).store().kinds_seq()[r.index as int].contains(c) ==> exists|k: int| 0 <= k < components@.len() && (#[trigger] components@[k]).spec_id().spec_value() == c && final(self).store().archetypes()[r.index as int].default_of(c) == components@[k].spec_default(),
            r.index < old(self).store().len() ==> final(self).store().archetypes()[r.index as int].same_layout(&old(self).store().archetypes()[r.index as int]),
            final(self).extends(old(self)),
            forall|e: Entity| #[trigger] old(self).is_valid(e) ==> final(self).keeps(old(self), e),
            forall|i: int| #[trigger] final(self).live(i) == old(self).live(i),
    {
        let ghost pre = *self;
        proof {
            pre.archetype_store.lemma_wf();
        }
        let r = self.archetype_store.create_archetype_with_capacity(components, min_capacity);
        proof {
            let s1 = self.archetype_store;
            s1.lemma_wf();
            let n0 = pre.archetype_store.len();
            let existed = exists|i: int| 0 <= i < n0 && pre.archetype_store.kinds_seq()[i] == id_set(type_ids(components@));
            assert forall|b: int| 0 <= b < n0 && b != r.index implies #[trigger] s1.archetypes()[b] == pre.archetype_store.archetypes()[b] by {
                if !existed {
                    assert(s1.archetypes().subrange(0, n0 as int)[b] == s1.archetypes()[b]);
                }
            }
            assert forall|b: int| 0 <= b < n0 implies #[trigger] s1.kinds_seq()[b] == pre.store().kinds_seq()[b] by {
                if !existed {
                    assert(s1.archetypes().subrange(0, n0 as int)[b] == s1.archetypes()[b]);
                }
            }
            assert forall|i: int| #[trigger] self.allocator.is_used(i) implies self.row_ok(i) by {
                assert(pre.row_ok(i));
                let rw = pre.instances@[i];
                let b = rw.archetype as int;
                pre.archetype_store.archetypes()[b].lemma_wf();
                if b == r.index as int && existed {
                    let x0 = pre.archetype_store.archetypes()[b];
                    assert(s1.archetypes()[b].entity_seq()[rw.slot as int] == x0.entity_seq()[rw.slot as int]);
                }
            }
            assert forall|b: int, sl: int| 0 <= b < s1.len() && #[trigger] s1.archetypes()[b].slots().is_used(sl) implies self.slot_ok(b, sl) by {
                if b >= n0 {
                    assert(b == r.index);
                    assert(s1.archetypes()[b].slots().is_free(sl));
                } else {
                    let x0 = pre.archetype_store.archetypes()[b];
                    x0.lemma_wf();
                    if b == r.index as int && existed {
                        assert(x0.slots().is_used(sl));
                        assert(s1.archetypes()[b].entity_seq()[sl] == x0.entity_seq()[sl]);
                    }
                    assert(pre.slot_ok(b, sl));
                }
            }
            assert forall|e: Entity| #[trigger] pre.is_valid(e) implies self.keeps(&pre, e) by {
                assert(pre.row_ok(e.index as int));
                let rw = pre.instances@[e.index as int];
                let b = rw.archetype as int;
                if b == r.index as int && existed {
                    let x0 = pre.archetype_store.archetypes()[b];
                    x0.lemma_wf();
                    assert forall|c: nat| #[trigger] pre.kinds_of(e).contains(c) implies self.component(e, c) == pre.component(e, c) by {
                        assert(x0.kinds().contains(c));
                    }
                }
            }
        }
        r
    }

    /// The archetype for the kinds of `components`, created empty when no
    /// archetype has them yet.
    pub fn create_archetype(&mut self, components: &[ComponentType]) -> (r: Archetype)
        requires
            old(self).wf(),
            forall|k: int| 0 <= k < components@.len() ==> (#[trigger] components@[k]).spec_id().valid(),
            old(self).store().len() < usize::MAX,
            old(self).store().sizes_fit(components@),
        ensures
            final(self).versions_kept(old(self)),
            final(self).row_count() == old(self).row_count(),
            final(self).live_count() == old(self).live_count(),
            final(self).wf(),
            r.index < final(self).store().len(),
            final(self).store().kinds_seq()[r.index as int] == id_set(type_ids(components@)),
            r.index >= old(self).store().len() ==> final(self).store().archetypes()[r.index as int].cap() == 0,
            forall|q: EntityQuery| #[trigger] final(self).store().query_sets(q) == old(self).store().query_sets(q),
            final(self).store().sizes_fit(components@),
            r.index >= old(self).store().len() ==> forall|c: nat| #[trigger] final(self).store().kinds_seq()[r.index as int].contains(c) ==> exists|k: int| 0 <= k < components@.len() && (#[trigger] components@[k]).spec_id().spec_value() == c && final(self).store().archetypes()[r.index as int].default_of(c) == components@[k].spec_default(),
            r.index < old(self).store().len() ==> final(self).store().archetypes()[r.index as int].same_layout(&old(self).store().archetypes()[r.index as int]),
            final(self).extends(old(self)),
            forall|e: Entity| #[trigger] old(self).is_valid(e) ==> final(self).keeps(old(self), e),
            forall|i: int| #[trigger] final(self).live(i) == old(self).live(i),
    {
        self.create_archetype_with_capacity(components, 0)
    }

    /// Every live slot of every archetype records a live entity whose
    /// archetype and slot are that archetype and slot.
    pub proof fn lemma_slot_owner(&self, a: int, sl: int)
        requires
            self.wf(),
            0 <= a < self.store().len(),
            self.store().archetypes()[a].slots().is_used(sl),
        ensures
            ({
                let e = self.store().archetypes()[a].entity_seq()[sl];
                &&& self.is_valid(e)
                &&& self.archetype_of(e) == a
                &&& self.row_slot(e.index as int) == sl
            }),
    {
        assert(self.slot_ok(a, sl));
        let e = self.store().archetypes()[a].entity_seq()[sl];
        assert(self.row_ok(e.index as int));
    }

    /// The archetypes.
    pub fn archetype_store(&self) -> (r: &ArchetypeStore)
        ensures
            *r == self.store(),
    {
        &self.archetype_store
    }

    /// The record of kind `id` of the entity `e`, or `None` when the entity
    /// does not have that kind. `e` must be live.
    pub fn get_component(&self, e: &Entity, id: ComponentId) -> (r: Option<&[u8]>)
        requires
            self.wf(),
            self.is_valid(*e),
        ensures
            r is Some <==> self.kinds_of(*e).contains(id.spec_value()),
            r matches Some(v) ==> v@ == self.component(*e, id.spec_value()),
    {
        let row = self.instances[e.index as usize];
        proof {
            assert(self.allocator.is_used(e.index as int));
            assert(self.row_ok(e.index as int));
            self.archetype_store.lemma_wf();
            assert(self.archetype_store.archetypes()[row.archetype as int].wf());
        }
        self.archetype_store.get(row.archetype).get_component(id, row.slot)
    }
}

} // verus!
