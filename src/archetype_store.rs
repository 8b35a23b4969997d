//! The registry of archetypes: deduplicated by their kind sets, with cached
//! query match lists and cached transitions.

use crate::archetype_instance::{Archetype, ArchetypeInstance, MAX_CAPACITY};
use crate::bit_field::BitField;
use crate::components::{id_set, type_ids, ComponentId, ComponentType};
use crate::entity_query::{EntityQuery, EntityQueryData};
use vstd::prelude::*;

verus! {

/// Whether an archetype with kinds `kinds` matches a query that includes
/// `included` and excludes `excluded`: it has every included kind and, unless
/// nothing is excluded, lacks at least one excluded kind.
pub open spec fn query_matches(kinds: Set<nat>, included: Set<nat>, excluded: Set<nat>) -> bool {
    included.subset_of(kinds) && (excluded == Set::<nat>::empty() || !excluded.subset_of(kinds))
}

/// The positions, in ascending order, of the kind sets of `ks` that match the
/// query.
pub open spec fn matching(ks: Seq<Set<nat>>, included: Set<nat>, excluded: Set<nat>) -> Seq<usize>
    decreases ks.len(),
{
    if ks.len() == 0 {
        Seq::empty()
    } else {
        let prev = matching(ks.drop_last(), included, excluded);
        if query_matches(ks.last(), included, excluded) {
            prev.push((ks.len() - 1) as usize)
        } else {
            prev
        }
    }
}

/// Query correctness: an archetype's position is in a query's match list
/// exactly when the archetype has every included kind and, unless nothing is
/// excluded, lacks at least one excluded kind; and the list holds positions
/// only.
pub proof fn lemma_matching_iff(ks: Seq<Set<nat>>, included: Set<nat>, excluded: Set<nat>, i: int)
    requires
        0 <= i < ks.len() <= usize::MAX + 1,
    ensures
        matching(ks, included, excluded).contains(i as usize) <==> query_matches(ks[i], included, excluded),
        forall|x: usize| #[trigger] matching(ks, included, excluded).contains(x) ==> x < ks.len(),
    decreases ks.len(),
{
    let prev = ks.drop_last();
    let n = ks.len() - 1;
    if n == 0 {
        assert(prev.len() == 0);
        assert(matching(prev, included, excluded) =~= Seq::<usize>::empty());
    } else if i < n {
        lemma_matching_iff(prev, included, excluded, i);
        assert(prev[i] == ks[i]);
    } else {
        lemma_matching_iff(prev, included, excluded, 0);
    }
    let m = matching(prev, included, excluded);
    assert forall|x: usize| #[trigger] matching(ks, included, excluded).contains(x) implies x < ks.len() by {
        if n > 0 {
            lemma_matching_iff(prev, included, excluded, 0);
        }
        if m.contains(x) {
            if n == 0 {
                assert(m.len() == 0);
            }
        } else {
            let j = choose|j: int| 0 <= j < matching(ks, included, excluded).len() && matching(ks, included, excluded)[j] == x;
            assert(j == m.len());
        }
    }
    if i == n {
        if query_matches(ks[i], included, excluded) {
            assert(matching(ks, included, excluded)[m.len() as int] == i as usize);
        } else {
            if n > 0 {
                lemma_matching_iff(prev, included, excluded, 0);
            }
            if m.contains(i as usize) {
                if n == 0 { assert(m.len() == 0); }
            }
        }
    } else {
        if m.contains(i as usize) {
            let j = choose|j: int| 0 <= j < m.len() && m[j] == i as usize;
            assert(matching(ks, included, excluded)[j] == i as usize);
        }
        if matching(ks, included, excluded).contains(i as usize) {
            let j = choose|j: int| 0 <= j < matching(ks, included, excluded).len() && matching(ks, included, excluded)[j] == i as usize;
            if j < m.len() {
                assert(m[j] == i as usize);
            }
        }
    }
}

/// A transition that applies leads to a different kind set.
pub proof fn lemma_transition_moves(kinds: Set<nat>, component: nat, kind: ArchetypeTransitionKind)
    requires
        transition_applies(kinds, component, kind),
    ensures
        transition_target(kinds, component, kind) != kinds,
{
    match kind {
        ArchetypeTransitionKind::Add => {
            assert(transition_target(kinds, component, kind).contains(component));
        },
        ArchetypeTransitionKind::Remove => {
            assert(!transition_target(kinds, component, kind).contains(component));
        },
    }
}

/// The sets of the entry for `q` in `entries`, if there is one.
pub open spec fn sets_for(entries: Seq<(EntityQuery, Set<nat>, Set<nat>)>, q: EntityQuery) -> Option<(Set<nat>, Set<nat>)> {
    if exists|k: int| 0 <= k < entries.len() && (#[trigger] entries[k]).0 == q {
        let k = choose|k: int| 0 <= k < entries.len() && (#[trigger] entries[k]).0 == q;
        Some((entries[k].1, entries[k].2))
    } else {
        None
    }
}

/// Replacing an archetype by a well-formed one of the same layout keeps a
/// sequence of archetypes well formed, with the same kinds.
proof fn lemma_seq_replace(s: Seq<ArchetypeInstance>, i: int, x: ArchetypeInstance)
    requires
        ArchetypeStore::archetypes_wf(s),
        0 <= i < s.len(),
        x.wf(),
        x.same_layout(&s[i]),
    ensures
        ArchetypeStore::archetypes_wf(s.update(i, x)),
        s.update(i, x).map_values(|a: ArchetypeInstance| a.kinds()) == s.map_values(|a: ArchetypeInstance| a.kinds()),
{
    let fin = s.update(i, x);
    assert(fin.map_values(|a: ArchetypeInstance| a.kinds()) =~= s.map_values(|a: ArchetypeInstance| a.kinds()));
    assert forall|a: int, b: int| 0 <= a < b < fin.len() implies (#[trigger] fin[a]).kinds() != (#[trigger] fin[b]).kinds() by {
        assert(fin[a].kinds() == s[a].kinds() && fin[b].kinds() == s[b].kinds());
    }
    assert forall|j: int| 0 <= j < fin.len() implies (#[trigger] fin[j]).wf() && fin[j].spec_id().index == j by {
        if j != i { assert(s[j] == fin[j]); }
    }
    assert forall|a: int, b: int, c: nat| 0 <= a < fin.len() && 0 <= b < fin.len() && #[trigger] fin[a].kinds().contains(c) && #[trigger] fin[b].kinds().contains(c) implies fin[a].record_size(c) == fin[b].record_size(c) by {
        assert(fin[a].record_size(c) == s[a].record_size(c));
        assert(fin[b].record_size(c) == s[b].record_size(c));
        assert(s[a].kinds().contains(c));
        assert(s[b].kinds().contains(c));
    }
    assert(fin[0].kinds() == s[0].kinds());
}

/// The match list is in strictly ascending order.
pub proof fn lemma_matching_sorted(ks: Seq<Set<nat>>, included: Set<nat>, excluded: Set<nat>)
    requires
        ks.len() <= usize::MAX + 1,
    ensures
        forall|x: int, y: int| 0 <= x < y < matching(ks, included, excluded).len() ==> matching(ks, included, excluded)[x] < matching(ks, included, excluded)[y],
    decreases ks.len(),
{
    if ks.len() > 0 {
        let prev = ks.drop_last();
        lemma_matching_sorted(prev, included, excluded);
        let m = matching(prev, included, excluded);
        if prev.len() > 0 {
            lemma_matching_iff(prev, included, excluded, 0);
        }
        assert forall|x: int| 0 <= x < m.len() implies m[x] < prev.len() by {
            assert(m.contains(m[x]));
        }
    }
}

/// A copy of a list of positions.
fn copy_positions(v: &Vec<usize>) -> (r: Vec<usize>)
    ensures
        r@ == v@,
{
    let mut r: Vec<usize> = Vec::new();
    let mut k: usize = 0;
    while k < v.len()
        invariant
            0 <= k <= v@.len(),
            r@ == v@.subrange(0, k as int),
        decreases v@.len() - k,
    {
        r.push(v[k]);
        k += 1;
        assert(r@ =~= v@.subrange(0, k as int));
    }
    assert(v@.subrange(0, v@.len() as int) =~= v@);
    r
}

/// Whether a component kind is added to an archetype or removed from it.
#[derive(Clone, Copy, PartialEq, Eq, Structural, Debug, Hash)]
pub enum ArchetypeTransitionKind {
    /// The kind is added.
    Add,
    /// The kind is removed.
    Remove,
}

/// The kind set reached from `kinds` by the transition.
pub open spec fn transition_target(kinds: Set<nat>, component: nat, kind: ArchetypeTransitionKind) -> Set<nat> {
    match kind {
        ArchetypeTransitionKind::Add => kinds.insert(component),
        ArchetypeTransitionKind::Remove => kinds.remove(component),
    }
}

/// Whether the transition changes `kinds`: an added kind is absent, a
/// removed one present.
pub open spec fn transition_applies(kinds: Set<nat>, component: nat, kind: ArchetypeTransitionKind) -> bool {
    match kind {
        ArchetypeTransitionKind::Add => !kinds.contains(component),
        ArchetypeTransitionKind::Remove => kinds.contains(component),
    }
}

/// A query's masks with the archetypes that match it.
struct CachedQuery {
    query: EntityQuery,
    included: BitField,
    excluded: BitField,
    matches: Vec<usize>,
}

/// A transition already resolved: from `archetype`, by `component` and
/// `kind`, to `target`.
struct CachedTransition {
    archetype: usize,
    component: usize,
    kind: ArchetypeTransitionKind,
    target: usize,
}

/// All archetypes of a registry, indexed by their handles.
pub struct ArchetypeStore {
    vec: Vec<ArchetypeInstance>,
    queries: Vec<CachedQuery>,
    transitions: Vec<CachedTransition>,
}

impl ArchetypeStore {
    /// The archetypes, by handle.
    pub closed spec fn archetypes(&self) -> Seq<ArchetypeInstance> {
        self.vec@
    }

    /// The kind set of each archetype, by handle.
    pub open spec fn kinds_seq(&self) -> Seq<Set<nat>> {
        self.archetypes().map_values(|a: ArchetypeInstance| a.kinds())
    }

    /// The number of archetypes.
    pub open spec fn len(&self) -> nat {
        self.archetypes().len()
    }

    /// The queries whose match lists are cached.
    pub closed spec fn cached_queries(&self) -> Seq<EntityQuery> {
        self.queries@.map_values(|q: CachedQuery| q.query)
    }

    /// The included and excluded sets cached for `q`, if its match list is
    /// cached.
    pub open spec fn query_sets(&self, q: EntityQuery) -> Option<(Set<nat>, Set<nat>)> {
        sets_for(self.query_entries(), q)
    }

    /// Each cached query with its included and excluded sets.
    pub closed spec fn query_entries(&self) -> Seq<(EntityQuery, Set<nat>, Set<nat>)> {
        self.queries@.map_values(|c: CachedQuery| (c.query, c.included@, c.excluded@))
    }

    /// The part of the store other than the archetypes.
    pub closed spec fn same_caches(&self, other: &Self) -> bool {
        &&& self.queries == other.queries
        &&& self.transitions == other.transitions
    }

    /// Whether the archetypes `archetypes` satisfy the store's invariant on
    /// archetypes: each is well formed and knows its handle, the first has no
    /// kind, no two have the same kinds, and a kind has one record size
    /// across all of them.
    pub open spec fn archetypes_wf(archetypes: Seq<ArchetypeInstance>) -> bool {
        &&& archetypes.len() >= 1
        &&& archetypes[0].kinds() == Set::<nat>::empty()
        &&& forall|i: int| 0 <= i < archetypes.len() ==> (#[trigger] archetypes[i]).wf() && archetypes[i].spec_id().index == i
        &&& forall|a: int, b: int| 0 <= a < b < archetypes.len() ==> (#[trigger] archetypes[a]).kinds() != (#[trigger] archetypes[b]).kinds()
        &&& forall|a: int, b: int, c: nat| 0 <= a < archetypes.len() && 0 <= b < archetypes.len() && #[trigger] archetypes[a].kinds().contains(c) && #[trigger] archetypes[b].kinds().contains(c) ==> archetypes[a].record_size(c) == archetypes[b].record_size(c)
    }

    /// The record sizes of `types` agree with each other and with those of
    /// the archetypes that have the same kinds.
    pub open spec fn sizes_fit(&self, types: Seq<ComponentType>) -> bool {
        &&& forall|k: int, i: int| 0 <= k < types.len() && 0 <= i < self.len() && #[trigger] self.archetypes()[i].kinds().contains(#[trigger] types[k].spec_id().spec_value()) ==> self.archetypes()[i].record_size(types[k].spec_id().spec_value()) == types[k].spec_default().len()
        &&& forall|a: int, b: int| 0 <= a < types.len() && 0 <= b < types.len() && (#[trigger] types[a]).spec_id().spec_value() == (#[trigger] types[b]).spec_id().spec_value() ==> types[a].spec_default().len() == types[b].spec_default().len()
    }

    /// The store's invariant.
    pub closed spec fn wf(&self) -> bool {
        &&& Self::archetypes_wf(self.vec@)
        &&& forall|k: int| 0 <= k < self.queries@.len() ==> (#[trigger] self.queries@[k]).included.wf() && self.queries@[k].excluded.wf() && self.queries@[k].matches@ == matching(self.kinds_seq(), self.queries@[k].included@, self.queries@[k].excluded@)
        &&& forall|a: int, b: int| 0 <= a < b < self.queries@.len() ==> (#[trigger] self.queries@[a]).query != (#[trigger] self.queries@[b]).query
        &&& forall|k: int| 0 <= k < self.transitions@.len() ==> {
            let t = #[trigger] self.transitions@[k];
            &&& t.archetype < self.vec@.len()
            &&& t.target < self.vec@.len()
            &&& transition_applies(self.vec@[t.archetype as int].kinds(), t.component as nat, t.kind)
            &&& self.vec@[t.target as int].kinds() == transition_target(self.vec@[t.archetype as int].kinds(), t.component as nat, t.kind)
        }
    }
}

impl ArchetypeStore {
    /// A store holding the archetype without kinds, at handle 0.
    pub fn new() -> (r: Self)
        ensures
            r.wf(),
            r.len() == 1,
            r.kinds_seq()[0] == Set::<nat>::empty(),
            r.archetypes()[0].cap() == 0,
    {
        let empty: Vec<ComponentType> = Vec::new();
        let root = ArchetypeInstance::new(Archetype { index: 0 }, empty.as_slice());
        let mut vec = Vec::new();
        vec.push(root);
        let r = ArchetypeStore { vec, queries: Vec::new(), transitions: Vec::new() };
        proof {
            assert(id_set(type_ids(empty@)) =~= Set::<nat>::empty());
            assert(r.kinds_seq()[0] == r.vec@[0].kinds());
        }
        r
    }

    /// The handle of the archetype whose kinds are those of `bf`, if any.
    fn find_archetype(&self, bf: &BitField) -> (r: Option<usize>)
        requires
            self.wf(),
        ensures
            r matches Some(i) ==> i < self.len() && self.kinds_seq()[i as int] == bf@,
            r is None ==> forall|i: int| 0 <= i < self.len() ==> self.kinds_seq()[i] != bf@,
    {
        let mut i: usize = 0;
        while i < self.vec.len()
            invariant
                self.wf(),
                0 <= i <= self.vec@.len(),
                forall|j: int| 0 <= j < i ==> self.kinds_seq()[j] != bf@,
            decreases self.vec@.len() - i,
        {
            proof {
                assert(self.vec@[i as int].wf());
                assert(self.kinds_seq()[i as int] == self.vec@[i as int].kinds());
            }
            if self.vec[i].component_bitfield().eq(bf) {
                return Some(i);
            }
            i += 1;
        }
        None
    }

    /// For a cached query that excludes some kind, archetype `i` is in the
    /// match list that [ArchetypeStore::query] returns exactly when it has
    /// every included kind and lacks at least one excluded kind.
    pub proof fn lemma_query_correct(&self, q: EntityQuery, i: int)
        requires
            self.wf(),
            self.query_sets(q) is Some,
            self.query_sets(q).unwrap().1 != Set::<nat>::empty(),
            0 <= i < self.len(),
        ensures
            ({
                let (included, excluded) = self.query_sets(q).unwrap();
                matching(self.kinds_seq(), included, excluded).contains(i as usize) <==> (included.subset_of(self.kinds_seq()[i]) && !excluded.subset_of(self.kinds_seq()[i]))
            }),
    {
        let (included, excluded) = self.query_sets(q).unwrap();
        lemma_matching_iff(self.kinds_seq(), included, excluded, i);
    }

    /// The archetypes of a well-formed store are well formed.
    pub proof fn lemma_wf(&self)
        requires
            self.wf(),
        ensures
            Self::archetypes_wf(self.archetypes()),
            forall|i: int| 0 <= i < self.len() ==> #[trigger] self.kinds_seq()[i] == self.archetypes()[i].kinds(),
    {
    }

    /// An archetype replaced by one of the same layout keeps the store well
    /// formed.
    pub proof fn lemma_replace_keeps_wf(pre: &Self, post: &Self, i: int)
        requires
            pre.wf(),
            post.same_caches(pre),
            0 <= i < pre.len(),
            post.archetypes() == pre.archetypes().update(i, post.archetypes()[i]),
            post.archetypes()[i].wf(),
            post.archetypes()[i].same_layout(&pre.archetypes()[i]),
        ensures
            post.wf(),
            post.kinds_seq() == pre.kinds_seq(),
            post.cached_queries() == pre.cached_queries(),
            post.query_entries() == pre.query_entries(),
    {
        assert(post.kinds_seq() =~= pre.kinds_seq());
        let fin = post.vec@;
        assert forall|a: int, b: int| 0 <= a < b < fin.len() implies (#[trigger] fin[a]).kinds() != (#[trigger] fin[b]).kinds() by {
            assert(pre.kinds_seq()[a] == pre.vec@[a].kinds() && pre.kinds_seq()[b] == pre.vec@[b].kinds());
            assert(post.kinds_seq()[a] == fin[a].kinds() && post.kinds_seq()[b] == fin[b].kinds());
        }
        assert forall|j: int| 0 <= j < fin.len() implies (#[trigger] fin[j]).wf() && fin[j].spec_id().index == j by {
            if j != i { assert(pre.vec@[j] == fin[j]); }
        }
        assert forall|a: int, b: int, c: nat| 0 <= a < fin.len() && 0 <= b < fin.len() && #[trigger] fin[a].kinds().contains(c) && #[trigger] fin[b].kinds().contains(c) implies fin[a].record_size(c) == fin[b].record_size(c) by {
            assert(fin[a].record_size(c) == pre.vec@[a].record_size(c));
            assert(fin[b].record_size(c) == pre.vec@[b].record_size(c));
            assert(pre.vec@[a].kinds().contains(c));
            assert(pre.vec@[b].kinds().contains(c));
        }
        assert forall|t: int| 0 <= t < post.transitions@.len() implies {
            let tr = #[trigger] post.transitions@[t];
            &&& tr.archetype < fin.len()
            &&& tr.target < fin.len()
            &&& transition_applies(fin[tr.archetype as int].kinds(), tr.component as nat, tr.kind)
            &&& fin[tr.target as int].kinds() == transition_target(fin[tr.archetype as int].kinds(), tr.component as nat, tr.kind)
        } by {
            let tr = post.transitions@[t];
            assert(pre.kinds_seq()[tr.archetype as int] == post.kinds_seq()[tr.archetype as int]);
            assert(pre.kinds_seq()[tr.target as int] == post.kinds_seq()[tr.target as int]);
        }
        assert(pre.kinds_seq()[0] == post.kinds_seq()[0]);
    }

    /// The archetype at `index`.
    pub fn get(&self, index: usize) -> (r: &ArchetypeInstance)
        requires
            index < self.len(),
        ensures
            *r == self.archetypes()[index as int],
    {
        &self.vec[index]
    }

    /// The archetype at `index`, to change in place; the store stays well
    /// formed when the change keeps the archetype's layout
    /// ([ArchetypeStore::lemma_replace_keeps_wf]).
    pub fn get_mut(&mut self, index: usize) -> (r: &mut ArchetypeInstance)
        requires
            index < old(self).len(),
        ensures
            *r == old(self).archetypes()[index as int],
            final(self).archetypes() == old(self).archetypes().update(index as int, *final(r)),
            final(self).same_caches(old(self)),
    {
        &mut self.vec[index]
    }

    /// Copy the records of the entity at `src_slot` of archetype `src` into
    /// `dst_slot` of archetype `dst`, for every kind that both have, and
    /// free `src_slot`.
    pub fn transfer(&mut self, src: usize, dst: usize, src_slot: usize, dst_slot: usize)
        requires
            old(self).wf(),
            src < old(self).len(),
            dst < old(self).len(),
            src != dst,
            old(self).archetypes()[src as int].slots().is_used(src_slot as int),
            dst_slot < old(self).archetypes()[dst as int].cap(),
        ensures
            final(self).wf(),
            final(self).len() == old(self).len(),
            final(self).kinds_seq() == old(self).kinds_seq(),
            final(self).query_entries() == old(self).query_entries(),
            forall|i: int| 0 <= i < old(self).len() && i != src && i != dst ==> #[trigger] final(self).archetypes()[i] == old(self).archetypes()[i],
            ({
                let s0 = old(self).archetypes()[src as int];
                let s1 = final(self).archetypes()[src as int];
                &&& s1.same_layout(&s0)
                &&& s1.columns() == s0.columns()
                &&& s1.entity_seq() == s0.entity_seq()
                &&& s1.cap() == s0.cap()
                &&& forall|i: int| #[trigger] s1.slots().is_free(i) == (s0.slots().is_free(i) || i == src_slot)
            }),
            ({
                let s0 = old(self).archetypes()[src as int];
                let d0 = old(self).archetypes()[dst as int];
                let d1 = final(self).archetypes()[dst as int];
                &&& d1.same_layout(&d0)
                &&& d1.slots() == d0.slots()
                &&& d1.entity_seq() == d0.entity_seq()
                &&& forall|c: nat, i: int| d0.kinds().contains(c) && 0 <= i < d0.cap() ==> #[trigger] d1.value(c, i) == if s0.kinds().contains(c) && i == dst_slot {
                    s0.value(c, src_slot as int)
                } else {
                    d0.value(c, i)
                }
            }),
    {
        let ghost pre = *self;
        let empty: Vec<ComponentType> = Vec::new();
        let mut moved = ArchetypeInstance::new(Archetype { index: 0 }, empty.as_slice());
        std::mem::swap(&mut moved, &mut self.vec[src]);
        proof {
            assert(moved == pre.vec@[src as int]);
            assert(moved.wf());
            assert(self.vec@[dst as int] == pre.vec@[dst as int]);
            assert(self.vec@[dst as int].wf());
            assert forall|c: nat| moved.kinds().contains(c) && self.vec@[dst as int].kinds().contains(c) implies #[trigger] moved.record_size(c) == self.vec@[dst as int].record_size(c) by {
                assert(pre.vec@[src as int].kinds().contains(c));
                assert(pre.vec@[dst as int].kinds().contains(c));
            }
        }
        moved.copy_components(&mut self.vec[dst], src_slot, dst_slot);
        moved.return_slot_no_drop(src_slot);
        std::mem::swap(&mut moved, &mut self.vec[src]);
        proof {
            let d1 = self.vec@[dst as int];
            let s1 = self.vec@[src as int];
            let step = pre.vec@.update(dst as int, d1);
            assert(self.vec@ =~= step.update(src as int, s1));
            lemma_seq_replace(pre.vec@, dst as int, d1);
            lemma_seq_replace(step, src as int, s1);
            assert(self.kinds_seq() =~= pre.kinds_seq()) by {
                assert(self.archetypes().map_values(|a: ArchetypeInstance| a.kinds()) =~= step.map_values(|a: ArchetypeInstance| a.kinds()));
                assert(step.map_values(|a: ArchetypeInstance| a.kinds()) =~= pre.archetypes().map_values(|a: ArchetypeInstance| a.kinds()));
            }
            assert forall|k: int| 0 <= k < self.queries@.len() implies (#[trigger] self.queries@[k]).included.wf() && self.queries@[k].excluded.wf() && self.queries@[k].matches@ == matching(self.kinds_seq(), self.queries@[k].included@, self.queries@[k].excluded@) by {
                assert(self.queries@[k] == pre.queries@[k]);
            }
            assert forall|t: int| 0 <= t < self.transitions@.len() implies {
                let tr = #[trigger] self.transitions@[t];
                &&& tr.archetype < self.vec@.len()
                &&& tr.target < self.vec@.len()
                &&& transition_applies(self.vec@[tr.archetype as int].kinds(), tr.component as nat, tr.kind)
                &&& self.vec@[tr.target as int].kinds() == transition_target(self.vec@[tr.archetype as int].kinds(), tr.component as nat, tr.kind)
            } by {
                let tr = self.transitions@[t];
                assert(pre.transitions@[t] == tr);
                assert(pre.kinds_seq()[tr.archetype as int] == self.kinds_seq()[tr.archetype as int]);
                assert(pre.kinds_seq()[tr.target as int] == self.kinds_seq()[tr.target as int]);
            }
            assert forall|i: int| 0 <= i < pre.len() && i != src && i != dst implies #[trigger] self.archetypes()[i] == pre.archetypes()[i] by {}
            assert(self.query_entries() == pre.query_entries());
        }
    }

    /// The bit field of the kinds of `components`.
    fn kinds_of(components: &[ComponentType]) -> (r: BitField)
        requires
            forall|k: int| 0 <= k < components@.len() ==> (#[trigger] components@[k]).spec_id().valid(),
        ensures
            r.wf(),
            r@ == id_set(type_ids(components@)),
    {
        let mut ids: Vec<ComponentId> = Vec::new();
        let mut k: usize = 0;
        while k < components.len()
            invariant
                0 <= k <= components@.len(),
                ids@ == type_ids(components@).subrange(0, k as int),
            decreases components@.len() - k,
        {
            ids.push(components[k].id());
            k += 1;
            proof {
                assert(ids@ =~= type_ids(components@).subrange(0, k as int));
            }
        }
        proof {
            assert(ids@ =~= type_ids(components@));
        }
        let (r, _) = crate::components::make_bitfield(ids.as_slice());
        r
    }

    /// The archetype for the kinds of `components`, created when no
    /// archetype has them yet; either way it is grown to at least
    /// `min_capacity` slots.
    pub fn create_archetype_with_capacity(&mut self, components: &[ComponentType], min_capacity: usize) -> (r: Archetype)
        requires
            old(self).wf(),
            forall|k: int| 0 <= k < components@.len() ==> (#[trigger] components@[k]).spec_id().valid(),
            min_capacity <= MAX_CAPACITY,
            old(self).len() < usize::MAX,
            old(self).sizes_fit(components@),
        ensures
            final(self).wf(),
            r.index < final(self).len(),
            final(self).kinds_seq()[r.index as int] == id_set(type_ids(components@)),
            final(self).cached_queries() == old(self).cached_queries(),
            final(self).query_entries() == old(self).query_entries(),
            forall|q: EntityQuery| #[trigger] final(self).query_sets(q) == old(self).query_sets(q),
            final(self).sizes_fit(components@),
            (exists|i: int| 0 <= i < old(self).len() && old(self).kinds_seq()[i] == id_set(type_ids(components@))) ==> {
                let x0 = old(self).archetypes()[r.index as int];
                let x1 = final(self).archetypes()[r.index as int];
                &&& r.index < old(self).len()
                &&& final(self).archetypes() == old(self).archetypes().update(r.index as int, x1)
                &&& x1.same_layout(&x0)
                &&& x1.cap() >= min_capacity
                &&& x1.cap() >= x0.cap()
                &&& x1.cap() == (if min_capacity > x0.cap() { min_capacity as nat } else { x0.cap() })
                &&& forall|i: int| #[trigger] x1.slots().is_free(i) == (x0.slots().is_free(i) || (x0.cap() <= i < min_capacity))
                &&& forall|c: nat, i: int| x0.kinds().contains(c) && 0 <= i < x0.cap() ==> #[trigger] x1.value(c, i) == x0.value(c, i)
                &&& forall|i: int| 0 <= i < x0.cap() ==> #[trigger] x1.entity_seq()[i] == x0.entity_seq()[i]
            },
            !(exists|i: int| 0 <= i < old(self).len() && old(self).kinds_seq()[i] == id_set(type_ids(components@))) ==> {
                &&& r.index == old(self).len()
                &&& final(self).len() == old(self).len() + 1
                &&& final(self).archetypes().subrange(0, old(self).len() as int) == old(self).archetypes()
                &&& final(self).archetypes()[r.index as int].cap() == min_capacity
                &&& forall|c: nat| #[trigger] final(self).kinds_seq()[r.index as int].contains(c) ==> exists|k: int| 0 <= k < components@.len() && (#[trigger] components@[k]).spec_id().spec_value() == c && final(self).archetypes()[r.index as int].default_of(c) == components@[k].spec_default()
                &&& forall|i: int| 0 <= i < min_capacity ==> #[trigger] final(self).archetypes()[r.index as int].slots().is_free(i)
            },
    {
        let bitfield = Self::kinds_of(components);
        match self.find_archetype(&bitfield) {
            Some(i) => {
                let ghost pre = *self;
                proof {
                    assert(pre.vec@[i as int].wf());
                }
                self.vec[i].ensure_capacity(min_capacity);
                proof {
                    assert(self.archetypes() == pre.archetypes().update(i as int, self.archetypes()[i as int]));
                    Self::lemma_replace_keeps_wf(&pre, self, i as int);
                }
                Archetype { index: i }
            },
            None => {
                let ghost pre = *self;
                let r = self.push_archetype(components, min_capacity);
                proof {
                    let fin = self.archetypes();
                    let n0 = pre.len();
                    assert forall|k: int, i: int| 0 <= k < components@.len() && 0 <= i < self.len() && #[trigger] fin[i].kinds().contains(#[trigger] components@[k].spec_id().spec_value()) implies fin[i].record_size(components@[k].spec_id().spec_value()) == components@[k].spec_default().len() by {
                        let c = components@[k].spec_id().spec_value();
                        if i < n0 {
                            assert(fin[i] == fin.subrange(0, n0 as int)[i]);
                            assert(pre.archetypes()[i].kinds().contains(c));
                        } else {
                            assert(self.kinds_seq()[i].contains(c));
                            let x = choose|x: int| 0 <= x < components@.len() && (#[trigger] components@[x]).spec_id().spec_value() == c && fin[i].default_of(c) == components@[x].spec_default();
                        }
                    }
                }
                r
            },
        }
    }

    /// Whether the record sizes of `types` agree with each other and with
    /// the archetypes of the store.
    pub fn check_sizes(&self, types: &[ComponentType]) -> (r: bool)
        requires
            self.wf(),
        ensures
            r == self.sizes_fit(types@),
    {
        let n = types.len();
        let mut k: usize = 0;
        while k < n
            invariant
                self.wf(),
                n == types@.len(),
                0 <= k <= n,
                forall|x: int, i: int| 0 <= x < k && 0 <= i < self.len() && #[trigger] self.archetypes()[i].kinds().contains(#[trigger] types@[x].spec_id().spec_value()) ==> self.archetypes()[i].record_size(types@[x].spec_id().spec_value()) == types@[x].spec_default().len(),
                forall|a: int, b: int| 0 <= a < k && 0 <= b < n && (#[trigger] types@[a]).spec_id().spec_value() == (#[trigger] types@[b]).spec_id().spec_value() ==> types@[a].spec_default().len() == types@[b].spec_default().len(),
            decreases n - k,
        {
            let t = &types[k];
            match self.kind_size(t.id()) {
                Some(size) => {
                    if size != t.size() {
                        proof {
                            let i = choose|i: int| 0 <= i < self.len() && (#[trigger] self.kinds_seq()[i]).contains(t.spec_id().spec_value());
                            self.lemma_wf();
                            assert(self.archetypes()[i].kinds().contains(types@[k as int].spec_id().spec_value()));
                        }
                        return false;
                    }
                },
                None => {},
            }
            let mut j: usize = 0;
            while j < n
                invariant
                    n == types@.len(),
                    k < n,
                    0 <= j <= n,
                    forall|b: int| 0 <= b < j && types@[k as int].spec_id().spec_value() == (#[trigger] types@[b]).spec_id().spec_value() ==> types@[k as int].spec_default().len() == types@[b].spec_default().len(),
                decreases n - j,
            {
                if types[j].id().value() == types[k].id().value() && types[j].size() != types[k].size() {
                    return false;
                }
                j += 1;
            }
            proof {
                self.lemma_wf();
                assert forall|x: int, i: int| 0 <= x < k + 1 && 0 <= i < self.len() && #[trigger] self.archetypes()[i].kinds().contains(#[trigger] types@[x].spec_id().spec_value()) implies self.archetypes()[i].record_size(types@[x].spec_id().spec_value()) == types@[x].spec_default().len() by {
                    if x == k {
                        assert(self.kinds_seq()[i].contains(t.spec_id().spec_value()));
                    }
                }
                assert forall|a: int, b: int| 0 <= a < k + 1 && 0 <= b < n && (#[trigger] types@[a]).spec_id().spec_value() == (#[trigger] types@[b]).spec_id().spec_value() implies types@[a].spec_default().len() == types@[b].spec_default().len() by {
                }
            }
            k += 1;
        }
        true
    }

    /// The number of archetypes.
    pub fn archetype_count(&self) -> (r: usize)
        ensures
            r == self.len(),
    {
        self.vec.len()
    }

    /// The archetype for the kinds of `components`, created empty when no
    /// archetype has them yet.
    pub fn create_archetype(&mut self, components: &[ComponentType]) -> (r: Archetype)
        requires
            old(self).wf(),
            forall|k: int| 0 <= k < components@.len() ==> (#[trigger] components@[k]).spec_id().valid(),
            old(self).len() < usize::MAX,
            old(self).sizes_fit(components@),
        ensures
            final(self).wf(),
            r.index < final(self).len(),
            final(self).kinds_seq()[r.index as int] == id_set(type_ids(components@)),
            final(self).cached_queries() == old(self).cached_queries(),
            final(self).query_entries() == old(self).query_entries(),
            forall|q: EntityQuery| #[trigger] final(self).query_sets(q) == old(self).query_sets(q),
            final(self).sizes_fit(components@),
            (exists|i: int| 0 <= i < old(self).len() && old(self).kinds_seq()[i] == id_set(type_ids(components@))) ==> {
                &&& r.index < old(self).len()
                &&& final(self).archetypes() == old(self).archetypes().update(r.index as int, final(self).archetypes()[r.index as int])
                &&& final(self).archetypes()[r.index as int].same_layout(&old(self).archetypes()[r.index as int])
            },
            !(exists|i: int| 0 <= i < old(self).len() && old(self).kinds_seq()[i] == id_set(type_ids(components@))) ==> {
                &&& r.index == old(self).len()
                &&& final(self).len() == old(self).len() + 1
                &&& final(self).archetypes().subrange(0, old(self).len() as int) == old(self).archetypes()
                &&& final(self).archetypes()[r.index as int].cap() == 0
                &&& forall|c: nat| #[trigger] final(self).kinds_seq()[r.index as int].contains(c) ==> exists|k: int| 0 <= k < components@.len() && (#[trigger] components@[k]).spec_id().spec_value() == c && final(self).archetypes()[r.index as int].default_of(c) == components@[k].spec_default()
            },
    {
        self.create_archetype_with_capacity(components, 0)
    }

    /// The record size of kind `id` in the archetypes that have it, or
    /// `None` when none has it.
    pub fn kind_size(&self, id: ComponentId) -> (r: Option<usize>)
        requires
            self.wf(),
        ensures
            r is None ==> forall|i: int| 0 <= i < self.len() ==> !(#[trigger] self.kinds_seq()[i]).contains(id.spec_value()),
            r matches Some(n) ==> forall|i: int| 0 <= i < self.len() && (#[trigger] self.kinds_seq()[i]).contains(id.spec_value()) ==> self.archetypes()[i].record_size(id.spec_value()) == n,
            r is Some ==> exists|i: int| 0 <= i < self.len() && (#[trigger] self.kinds_seq()[i]).contains(id.spec_value()),
    {
        let mut i: usize = 0;
        while i < self.vec.len()
            invariant
                self.wf(),
                0 <= i <= self.vec@.len(),
                forall|j: int| 0 <= j < i ==> !(#[trigger] self.kinds_seq()[j]).contains(id.spec_value()),
            decreases self.vec@.len() - i,
        {
            proof {
                assert(self.vec@[i as int].wf());
                assert(self.kinds_seq()[i as int] == self.vec@[i as int].kinds());
            }
            match self.vec[i].component_size(id) {
                Some(n) => {
                    proof {
                        assert forall|j: int| 0 <= j < self.len() && (#[trigger] self.kinds_seq()[j]).contains(id.spec_value()) implies self.archetypes()[j].record_size(id.spec_value()) == n by {
                            assert(self.kinds_seq()[j] == self.vec@[j].kinds());
                            assert(self.vec@[i as int].kinds().contains(id.spec_value()));
                        }
                        assert(self.kinds_seq()[i as int].contains(id.spec_value()));
                    }
                    return Some(n);
                },
                None => {},
            }
            i += 1;
        }
        None
    }

    /// The positions of the archetypes matching the query, computed by a
    /// scan of all archetypes.
    fn scan_matches(&self, included: &BitField, excluded: &BitField) -> (r: Vec<usize>)
        requires
            self.wf(),
        ensures
            r@ == matching(self.kinds_seq(), included@, excluded@),
    {
        let mut r: Vec<usize> = Vec::new();
        let mut i: usize = 0;
        while i < self.vec.len()
            invariant
                self.wf(),
                0 <= i <= self.vec@.len(),
                r@ == matching(self.kinds_seq().subrange(0, i as int), included@, excluded@),
            decreases self.vec@.len() - i,
        {
            proof {
                let ks = self.kinds_seq().subrange(0, i + 1);
                assert(ks.drop_last() =~= self.kinds_seq().subrange(0, i as int));
                assert(ks.last() == self.vec@[i as int].kinds());
            }
            if self.vec[i].matches_query(included) && (excluded.is_empty() || !self.vec[i].matches_query(excluded)) {
                r.push(i);
            }
            i += 1;
        }
        proof {
            assert(self.kinds_seq().subrange(0, self.vec@.len() as int) =~= self.kinds_seq());
        }
        r
    }

    /// The positions, in ascending order, of the archetypes matching `query`.
    /// The first call for a handle caches the match list for the sets of
    /// `data`; later calls use the cached sets, and the list is kept up to
    /// date as archetypes are created.
    pub fn query(&mut self, query: EntityQuery, data: &EntityQueryData) -> (r: Vec<usize>)
        requires
            old(self).wf(),
            data.wf(),
        ensures
            final(self).wf(),
            final(self).archetypes() == old(self).archetypes(),
            final(self).query_sets(query) == (match old(self).query_sets(query) {
                Some(sets) => Some(sets),
                None => Some((data.include_set(), data.exclude_set())),
            }),
            forall|q: EntityQuery| q != query ==> #[trigger] final(self).query_sets(q) == old(self).query_sets(q),
            r@ == matching(final(self).kinds_seq(), final(self).query_sets(query).unwrap().0, final(self).query_sets(query).unwrap().1),
    {
        let mut k: usize = 0;
        while k < self.queries.len()
            invariant
                self.wf(),
                self == old(self),
                0 <= k <= self.queries@.len(),
                forall|j: int| 0 <= j < k ==> (#[trigger] self.queries@[j]).query != query,
            decreases self.queries@.len() - k,
        {
            if self.queries[k].query == query {
                proof {
                    let e = self.query_entries();
                    assert(e[k as int].0 == query);
                    let j = choose|j: int| 0 <= j < e.len() && (#[trigger] e[j]).0 == query;
                    if j != k as int {
                        if j < k { assert(self.queries@[j].query != self.queries@[k as int].query); }
                        else { assert(self.queries@[k as int].query != self.queries@[j].query); }
                    }
                }
                let r = copy_positions(&self.queries[k].matches);
                return r;
            }
            k += 1;
        }
        let included = data.included();
        let excluded = data.excluded();
        let matches = self.scan_matches(included, excluded);
        let r = copy_positions(&matches);
        let mut inc_copy = BitField::new();
        inc_copy.copy_from(included);
        let mut exc_copy = BitField::new();
        exc_copy.copy_from(excluded);
        let ghost pre = self.queries@;
        self.queries.push(CachedQuery { query, included: inc_copy, excluded: exc_copy, matches });
        proof {
            let n = pre.len() as int;
            assert(self.queries@[n].query == query);
            assert forall|a: int, b: int| 0 <= a < b < self.queries@.len() implies (#[trigger] self.queries@[a]).query != (#[trigger] self.queries@[b]).query by {
                if b == n { assert(self.queries@[a] == pre[a]); }
                else { assert(self.queries@[a] == pre[a] && self.queries@[b] == pre[b]); }
            }
            assert forall|j: int| 0 <= j < self.queries@.len() implies (#[trigger] self.queries@[j]).included.wf() && self.queries@[j].excluded.wf() && self.queries@[j].matches@ == matching(self.kinds_seq(), self.queries@[j].included@, self.queries@[j].excluded@) by {
                if j < n { assert(self.queries@[j] == pre[j]); }
            }
            let e = self.query_entries();
            let e0 = old(self).query_entries();
            assert(e =~= e0.push((query, self.queries@[n].included@, self.queries@[n].excluded@)));
            assert(e[n].0 == query);
            let k2 = choose|k2: int| 0 <= k2 < e.len() && (#[trigger] e[k2]).0 == query;
            if k2 != n {
                assert(self.queries@[k2].query != self.queries@[n].query);
            }
            assert forall|q: EntityQuery| q != query implies #[trigger] self.query_sets(q) == old(self).query_sets(q) by {
                if exists|j: int| 0 <= j < e0.len() && (#[trigger] e0[j]).0 == q {
                    let j1 = choose|j1: int| 0 <= j1 < e0.len() && (#[trigger] e0[j1]).0 == q;
                    assert(e[j1] == e0[j1]);
                    let j2 = choose|j2: int| 0 <= j2 < e.len() && (#[trigger] e[j2]).0 == q;
                    if j2 != j1 {
                        if j2 == n {
                        } else if j2 < j1 {
                            assert(self.queries@[j2].query != self.queries@[j1].query);
                        } else {
                            assert(self.queries@[j1].query != self.queries@[j2].query);
                        }
                    }
                } else {
                    if exists|j: int| 0 <= j < e.len() && (#[trigger] e[j]).0 == q {
                        let j = choose|j: int| 0 <= j < e.len() && (#[trigger] e[j]).0 == q;
                        if j < n { assert(e[j] == e0[j]); }
                    }
                }
            }
        }
        r
    }

    /// The kinds of the archetype at `src` with `component` added or
    /// removed, as a list of descriptors without repeats.
    fn transition_components(&self, src: usize, component: &ComponentType, kind: ArchetypeTransitionKind) -> (r: Vec<ComponentType>)
        requires
            self.wf(),
            src < self.len(),
            component.spec_id().valid(),
            transition_applies(self.kinds_seq()[src as int], component.spec_id().spec_value(), kind),
            kind == ArchetypeTransitionKind::Add ==> self.sizes_fit(seq![*component]),
        ensures
            id_set(type_ids(r@)) == transition_target(self.kinds_seq()[src as int], component.spec_id().spec_value(), kind),
            forall|k: int| 0 <= k < r@.len() ==> (#[trigger] r@[k]).spec_id().valid(),
            self.sizes_fit(r@),
            forall|k: int| 0 <= k < r@.len() && (#[trigger] r@[k]).spec_id().spec_value() == component.spec_id().spec_value() ==> r@[k].spec_default().len() == component.spec_default().len(),
    {
        let ghost a = self.vec@[src as int];
        proof {
            assert(a.wf());
            assert(self.kinds_seq()[src as int] == a.kinds());
        }
        let list = self.vec[src].components();
        let c = component.id().value();
        let mut r: Vec<ComponentType> = Vec::new();
        let mut k: usize = 0;
        while k < list.len()
            invariant
                self.wf(),
                a == self.vec@[src as int],
                a.wf(),
                src < self.len(),
                id_set(type_ids(list@)) == a.kinds(),
                !crate::components::has_repeats(type_ids(list@)),
                forall|j: int| 0 <= j < list@.len() ==> (#[trigger] list@[j]).spec_id().valid() && list@[j].spec_default() == a.default_of(list@[j].spec_id().spec_value()),
                0 <= k <= list@.len(),
                c == component.spec_id().spec_value(),
                forall|j: int| 0 <= j < r@.len() ==> (#[trigger] r@[j]).spec_id().valid() && r@[j].spec_id().spec_value() != c && a.kinds().contains(r@[j].spec_id().spec_value()) && r@[j].spec_default() == a.default_of(r@[j].spec_id().spec_value()),
                forall|x: nat| #[trigger] id_set(type_ids(r@)).contains(x) == (x != c && id_set(type_ids(list@.subrange(0, k as int))).contains(x)),
            decreases list@.len() - k,
        {
            let t = &list[k];
            let ghost prev = r@;
            if t.id().value() != c {
                r.push(t.duplicate());
            }
            proof {
                assert(list@.subrange(0, k + 1) =~= list@.subrange(0, k as int).push(list@[k as int]));
                assert forall|j: int| 0 <= j < r@.len() implies (#[trigger] r@[j]).spec_id().valid() && r@[j].spec_id().spec_value() != c && a.kinds().contains(r@[j].spec_id().spec_value()) && r@[j].spec_default() == a.default_of(r@[j].spec_id().spec_value()) by {
                    if j < prev.len() { assert(r@[j] == prev[j]); }
                    else {
                        assert(type_ids(list@)[k as int] == list@[k as int].spec_id());
                        assert(id_set(type_ids(list@)).contains(list@[k as int].spec_id().spec_value()));
                    }
                }
                assert forall|x: nat| #[trigger] id_set(type_ids(r@)).contains(x) == (x != c && id_set(type_ids(list@.subrange(0, k + 1))).contains(x)) by {
                    let sub = type_ids(list@.subrange(0, k as int));
                    let sub1 = type_ids(list@.subrange(0, k + 1));
                    assert(sub1 =~= sub.push(list@[k as int].spec_id()));
                    if id_set(type_ids(r@)).contains(x) {
                        let j = choose|j: int| 0 <= j < type_ids(r@).len() && (#[trigger] type_ids(r@)[j]).spec_value() == x;
                        if j < prev.len() {
                            assert(type_ids(r@)[j] == type_ids(prev)[j]);
                            assert(id_set(type_ids(prev)).contains(x));
                            let y = choose|y: int| 0 <= y < sub.len() && (#[trigger] sub[y]).spec_value() == x;
                            assert(sub1[y] == sub[y]);
                        } else {
                            assert(sub1[k as int].spec_value() == x);
                        }
                    }
                    if x != c && id_set(sub1).contains(x) {
                        let y = choose|y: int| 0 <= y < sub1.len() && (#[trigger] sub1[y]).spec_value() == x;
                        if y < k {
                            assert(sub[y] == sub1[y]);
                            assert(id_set(type_ids(prev)).contains(x));
                            let j = choose|j: int| 0 <= j < type_ids(prev).len() && (#[trigger] type_ids(prev)[j]).spec_value() == x;
                            assert(type_ids(r@)[j] == type_ids(prev)[j]);
                        } else {
                            assert(type_ids(r@)[prev.len() as int].spec_value() == x);
                        }
                    }
                }
            }
            k += 1;
        }
        proof {
            assert(list@.subrange(0, list@.len() as int) =~= list@);
        }
        let ghost removed = r@;
        match kind {
            ArchetypeTransitionKind::Add => {
                r.push(component.duplicate());
            },
            ArchetypeTransitionKind::Remove => {},
        }
        proof {
            let target = transition_target(a.kinds(), c as nat, kind);
            assert forall|x: nat| #[trigger] id_set(type_ids(r@)).contains(x) == target.contains(x) by {
                if kind == ArchetypeTransitionKind::Add {
                    assert(type_ids(r@) =~= type_ids(removed).push(component.spec_id()));
                    if id_set(type_ids(r@)).contains(x) {
                        let j = choose|j: int| 0 <= j < type_ids(r@).len() && (#[trigger] type_ids(r@)[j]).spec_value() == x;
                        if j < removed.len() {
                            assert(type_ids(removed)[j] == type_ids(r@)[j]);
                        }
                    }
                    if id_set(type_ids(removed)).contains(x) {
                        let j = choose|j: int| 0 <= j < type_ids(removed).len() && (#[trigger] type_ids(removed)[j]).spec_value() == x;
                        assert(type_ids(r@)[j] == type_ids(removed)[j]);
                    }
                    if x == c {
                        assert(type_ids(r@)[removed.len() as int].spec_value() == x);
                    }
                }
            }
            assert(id_set(type_ids(r@)) =~= target);
            assert forall|j: int| 0 <= j < r@.len() implies (#[trigger] r@[j]).spec_id().valid() by {
                if j < removed.len() { assert(r@[j] == removed[j]); }
            }
            assert forall|j: int| 0 <= j < r@.len() && (#[trigger] r@[j]).spec_id().spec_value() == component.spec_id().spec_value() implies r@[j].spec_default().len() == component.spec_default().len() by {
                if j < removed.len() { assert(r@[j] == removed[j]); }
            }
            assert forall|x: int, i: int| 0 <= x < r@.len() && 0 <= i < self.len() && #[trigger] self.archetypes()[i].kinds().contains(#[trigger] r@[x].spec_id().spec_value()) implies self.archetypes()[i].record_size(r@[x].spec_id().spec_value()) == r@[x].spec_default().len() by {
                if x < removed.len() {
                    assert(r@[x] == removed[x]);
                    assert(self.vec@[src as int].kinds().contains(removed[x].spec_id().spec_value()));
                } else {
                    assert(r@[x].spec_id() == component.spec_id() && r@[x].spec_default() == component.spec_default());
                    assert(seq![*component][0] == *component);
                    assert(self.archetypes()[i].kinds().contains(seq![*component][0].spec_id().spec_value()));
                }
            }
            assert forall|x: int, y: int| 0 <= x < r@.len() && 0 <= y < r@.len() && (#[trigger] r@[x]).spec_id().spec_value() == (#[trigger] r@[y]).spec_id().spec_value() implies r@[x].spec_default().len() == r@[y].spec_default().len() by {
                if x < removed.len() { assert(r@[x] == removed[x]); }
                if y < removed.len() { assert(r@[y] == removed[y]); }
            }
        }
        r
    }

    /// The archetype reached from `src` by adding or removing `component`,
    /// or `None` when the transition does not apply (an added kind is
    /// already there, a removed one is not). The target is created when no
    /// archetype has its kinds yet; the result is cached.
    pub fn get_archetype_transition(&mut self, src: Archetype, component: &ComponentType, kind: ArchetypeTransitionKind) -> (r: Option<Archetype>)
        requires
            old(self).wf(),
            src.index < old(self).len(),
            component.spec_id().valid(),
            old(self).len() < usize::MAX,
            kind == ArchetypeTransitionKind::Add ==> old(self).sizes_fit(seq![*component]),
        ensures
            final(self).wf(),
            r is None <==> !transition_applies(old(self).kinds_seq()[src.index as int], component.spec_id().spec_value(), kind),
            r is None ==> *final(self) == *old(self),
            kind == ArchetypeTransitionKind::Add ==> (r matches Some(t) ==> t.index < final(self).len() && final(self).archetypes()[t.index as int].record_size(component.spec_id().spec_value()) == component.spec_default().len()),
            r matches Some(t) ==> t.index < final(self).len() && t.index != src.index && final(self).kinds_seq()[t.index as int] == transition_target(old(self).kinds_seq()[src.index as int], component.spec_id().spec_value(), kind),
            final(self).len() == old(self).len() || final(self).len() == old(self).len() + 1,
            final(self).archetypes().subrange(0, old(self).len() as int) == old(self).archetypes(),
            final(self).len() == old(self).len() + 1 ==> final(self).archetypes()[old(self).len() as int].cap() == 0,
            forall|q: EntityQuery| #[trigger] final(self).query_sets(q) == old(self).query_sets(q),
    {
        let c = component.id().value();
        let mut k: usize = 0;
        while k < self.transitions.len()
            invariant
                self.wf(),
                self == old(self),
                0 <= k <= self.transitions@.len(),
                c == component.spec_id().spec_value(),
                kind == ArchetypeTransitionKind::Add ==> self.sizes_fit(seq![*component]),
            decreases self.transitions@.len() - k,
        {
            let t = &self.transitions[k];
            if t.archetype == src.index && t.component == c && t.kind == kind {
                let target = t.target;
                proof {
                    let tr = self.transitions@[k as int];
                    assert(tr.archetype < self.vec@.len());
                    assert(tr.kind == kind);
                    assert(tr.component == c);
                    assert(c == component.spec_id().spec_value());
                    assert(transition_applies(self.vec@[tr.archetype as int].kinds(), tr.component as nat, tr.kind));
                    assert(tr.archetype == src.index);
                    assert(self.archetypes().subrange(0, self.len() as int) =~= self.archetypes());
                    assert(self.kinds_seq()[target as int] == self.vec@[target as int].kinds());
                    assert(self.kinds_seq()[src.index as int] == self.vec@[src.index as int].kinds());
                    lemma_transition_moves(self.kinds_seq()[src.index as int], c as nat, kind);
                    if kind == ArchetypeTransitionKind::Add {
                        assert(self.kinds_seq()[target as int].contains(c as nat));
                        assert(seq![*component][0] == *component);
                        assert(self.archetypes()[target as int].kinds().contains(seq![*component][0].spec_id().spec_value()));
                    }
                }
                return Some(Archetype { index: target });
            }
            k += 1;
        }
        proof {
            assert(self.vec@[src.index as int].wf());
            assert(self.kinds_seq()[src.index as int] == self.vec@[src.index as int].kinds());
        }
        let present = self.vec[src.index].component_bitfield().get(c);
        let applies = match kind {
            ArchetypeTransitionKind::Add => !present,
            ArchetypeTransitionKind::Remove => present,
        };
        if !applies {
            proof {
                assert(self.archetypes().subrange(0, self.len() as int) =~= self.archetypes());
            }
            return None;
        }
        let components = self.transition_components(src.index, component, kind);
        let bitfield = Self::kinds_of(components.as_slice());
        let target = match self.find_archetype(&bitfield) {
            Some(i) => {
                proof {
                    assert(self.archetypes().subrange(0, self.len() as int) =~= self.archetypes());
                }
                Archetype { index: i }
            },
            None => self.push_archetype(components.as_slice(), 0),
        };
        let ghost mid = *self;
        proof {
            lemma_transition_moves(old(self).kinds_seq()[src.index as int], c as nat, kind);
            assert(mid.kinds_seq()[src.index as int] == old(self).kinds_seq()[src.index as int]) by {
                assert(mid.archetypes()[src.index as int] == mid.archetypes().subrange(0, old(self).len() as int)[src.index as int]);
            }
        }
        self.transitions.push(CachedTransition { archetype: src.index, component: c, kind, target: target.index });
        proof {
            assert(self.vec == mid.vec);
            assert forall|t: int| 0 <= t < self.transitions@.len() implies {
                let tr = #[trigger] self.transitions@[t];
                &&& tr.archetype < self.vec@.len()
                &&& tr.target < self.vec@.len()
                &&& transition_applies(self.vec@[tr.archetype as int].kinds(), tr.component as nat, tr.kind)
                &&& self.vec@[tr.target as int].kinds() == transition_target(self.vec@[tr.archetype as int].kinds(), tr.component as nat, tr.kind)
            } by {
                if t < mid.transitions@.len() {
                    assert(self.transitions@[t] == mid.transitions@[t]);
                } else {
                    assert(self.kinds_seq()[target.index as int] == self.vec@[target.index as int].kinds());
                    assert(self.kinds_seq()[src.index as int] == self.vec@[src.index as int].kinds());
                }
            }
            assert(self.query_entries() == mid.query_entries());
            if kind == ArchetypeTransitionKind::Add {
                let n0 = old(self).len();
                assert(mid.kinds_seq()[target.index as int].contains(c as nat));
                if target.index < n0 {
                    assert(mid.archetypes()[target.index as int] == old(self).archetypes()[target.index as int]) by {
                        assert(mid.archetypes().subrange(0, n0 as int)[target.index as int] == mid.archetypes()[target.index as int]);
                    }
                    assert(seq![*component][0] == *component);
                    assert(old(self).archetypes()[target.index as int].kinds().contains(seq![*component][0].spec_id().spec_value()));
                } else {
                    let k = choose|k: int| 0 <= k < components@.len() && (#[trigger] components@[k]).spec_id().spec_value() == c as nat && mid.archetypes()[target.index as int].default_of(c as nat) == components@[k].spec_default();
                    assert(components@[k].spec_default().len() == component.spec_default().len());
                }
            }
        }
        Some(target)
    }

    /// Append a new archetype for the kinds of `components`, which no
    /// archetype has yet, and add it to the match list of every cached query
    /// that it matches.
    fn push_archetype(&mut self, components: &[ComponentType], capacity: usize) -> (r: Archetype)
        requires
            old(self).wf(),
            forall|k: int| 0 <= k < components@.len() ==> (#[trigger] components@[k]).spec_id().valid(),
            capacity <= MAX_CAPACITY,
            old(self).len() < usize::MAX,
            old(self).sizes_fit(components@),
            forall|i: int| 0 <= i < old(self).len() ==> old(self).kinds_seq()[i] != id_set(type_ids(components@)),
        ensures
            final(self).wf(),
            r.index == old(self).len(),
            final(self).len() == old(self).len() + 1,
            final(self).archetypes().subrange(0, old(self).len() as int) == old(self).archetypes(),
            final(self).kinds_seq()[r.index as int] == id_set(type_ids(components@)),
            final(self).archetypes()[r.index as int].cap() == capacity,
            forall|i: int| 0 <= i < capacity ==> #[trigger] final(self).archetypes()[r.index as int].slots().is_free(i),
            final(self).cached_queries() == old(self).cached_queries(),
            final(self).query_entries() == old(self).query_entries(),
            forall|c: nat| #[trigger] final(self).kinds_seq()[r.index as int].contains(c) ==> exists|k: int| 0 <= k < components@.len() && (#[trigger] components@[k]).spec_id().spec_value() == c && final(self).archetypes()[r.index as int].default_of(c) == components@[k].spec_default(),
    {
        let index = self.vec.len();
        let instance = ArchetypeInstance::with_capacity(Archetype { index }, components, capacity);
        let ghost ks = self.kinds_seq();
        let nq = self.queries.len();
        let mut k: usize = 0;
        while k < nq
            invariant
                old(self).wf(),
                self.vec == old(self).vec,
                self.transitions == old(self).transitions,
                ks == old(self).kinds_seq(),
                index == ks.len(),
                instance.wf(),
                nq == self.queries@.len(),
                nq == old(self).queries@.len(),
                0 <= k <= nq,
                forall|j: int| 0 <= j < nq ==> (#[trigger] self.queries@[j]).query == old(self).queries@[j].query && self.queries@[j].included == old(self).queries@[j].included && self.queries@[j].excluded == old(self).queries@[j].excluded,
                forall|j: int| 0 <= j < k ==> (#[trigger] self.queries@[j]).matches@ == matching(ks.push(instance.kinds()), self.queries@[j].included@, self.queries@[j].excluded@),
                forall|j: int| k <= j < nq ==> (#[trigger] self.queries@[j]) == old(self).queries@[j],
            decreases nq - k,
        {
            let ghost before = self.queries@;
            proof {
                assert(self.queries@[k as int] == old(self).queries@[k as int]);
                assert(ks.push(instance.kinds()).drop_last() =~= ks);
            }
            if instance.matches_query(&self.queries[k].included) && (self.queries[k].excluded.is_empty() || !instance.matches_query(&self.queries[k].excluded)) {
                self.queries[k].matches.push(index);
            }
            proof {
                assert forall|j: int| 0 <= j < nq && j != k implies #[trigger] self.queries@[j] == before[j] by {}
            }
            k += 1;
        }
        self.vec.push(instance);
        proof {
            let fin = self.vec@;
            assert(fin.subrange(0, index as int) =~= old(self).vec@);
            assert(self.kinds_seq() =~= ks.push(instance.kinds()));
            assert(self.cached_queries() =~= old(self).cached_queries());
            assert(self.query_entries() =~= old(self).query_entries());
            let ia = instance;
            assert forall|a: int, b: int| 0 <= a < b < fin.len() implies (#[trigger] fin[a]).kinds() != (#[trigger] fin[b]).kinds() by {
                if b == index {
                    assert(ks[a] == fin[a].kinds());
                } else {
                    assert(old(self).vec@[a] == fin[a] && old(self).vec@[b] == fin[b]);
                }
            }
            assert forall|i: int| 0 <= i < fin.len() implies (#[trigger] fin[i]).wf() && fin[i].spec_id().index == i by {
                if i < index { assert(old(self).vec@[i] == fin[i]); }
            }
            assert forall|a: int, b: int, c: nat| 0 <= a < fin.len() && 0 <= b < fin.len() && #[trigger] fin[a].kinds().contains(c) && #[trigger] fin[b].kinds().contains(c) implies fin[a].record_size(c) == fin[b].record_size(c) by {
                if a == index || b == index {
                    let x = choose|x: int| 0 <= x < components@.len() && (#[trigger] components@[x]).spec_id().spec_value() == c && ia.default_of(c) == components@[x].spec_default();
                    if a < index {
                        assert(old(self).archetypes()[a] == fin[a]);
                        assert(old(self).archetypes()[a].kinds().contains(components@[x].spec_id().spec_value()));
                    }
                    if b < index {
                        assert(old(self).archetypes()[b] == fin[b]);
                        assert(old(self).archetypes()[b].kinds().contains(components@[x].spec_id().spec_value()));
                    }
                } else {
                    assert(old(self).vec@[a] == fin[a] && old(self).vec@[b] == fin[b]);
                }
            }
            assert forall|t: int| 0 <= t < self.transitions@.len() implies {
                let tr = #[trigger] self.transitions@[t];
                &&& tr.archetype < fin.len()
                &&& tr.target < fin.len()
                &&& transition_applies(fin[tr.archetype as int].kinds(), tr.component as nat, tr.kind)
                &&& fin[tr.target as int].kinds() == transition_target(fin[tr.archetype as int].kinds(), tr.component as nat, tr.kind)
            } by {
                let tr = self.transitions@[t];
                assert(old(self).vec@[tr.archetype as int] == fin[tr.archetype as int]);
                assert(old(self).vec@[tr.target as int] == fin[tr.target as int]);
            }
            assert(fin[0] == old(self).vec@[0]);
        }
        Archetype { index }
    }
}

} // verus!
