//! Queries: pairs of included and excluded sets of component kinds, interned
//! in a table that hands out handles.

use crate::bit_field::BitField;
use crate::components::{has_repeats, id_set, make_bitfield, ComponentId};
use vstd::prelude::*;

verus! {

/// A handle to a query held in a [QueryTable].
#[derive(Clone, Copy, PartialEq, Eq, Structural, Debug, Hash)]
pub struct EntityQuery {
    /// The query's position in its table.
    pub index: usize,
}

/// The kinds a matching archetype must have, and the kinds of which it must
/// lack at least one.
pub struct EntityQueryData {
    included: BitField,
    excluded: BitField,
}

impl EntityQueryData {
    /// The kinds that a matching archetype has.
    pub closed spec fn include_set(&self) -> Set<nat> {
        self.included@
    }

    /// The kinds of which a matching archetype lacks at least one.
    pub closed spec fn exclude_set(&self) -> Set<nat> {
        self.excluded@
    }

    /// Both bit fields are well formed.
    pub closed spec fn wf(&self) -> bool {
        self.included.wf() && self.excluded.wf()
    }

    /// The included bit field.
    pub fn included(&self) -> (r: &BitField)
        requires
            self.wf(),
        ensures
            r@ == self.include_set(),
            r.wf(),
    {
        &self.included
    }

    /// The excluded bit field.
    pub fn excluded(&self) -> (r: &BitField)
        requires
            self.wf(),
        ensures
            r@ == self.exclude_set(),
            r.wf(),
    {
        &self.excluded
    }
}

/// The table of queries, interned by their included and excluded sets.
pub struct QueryTable {
    data: Vec<EntityQueryData>,
}

impl QueryTable {
    /// The included set of each query, by handle.
    pub closed spec fn includes(&self) -> Seq<Set<nat>> {
        self.data@.map_values(|d: EntityQueryData| d.include_set())
    }

    /// The excluded set of each query, by handle.
    pub closed spec fn excludes(&self) -> Seq<Set<nat>> {
        self.data@.map_values(|d: EntityQueryData| d.exclude_set())
    }

    /// The number of queries.
    pub open spec fn len(&self) -> nat {
        self.includes().len()
    }

    /// Every entry is well formed, and no two entries have the same sets.
    pub closed spec fn wf(&self) -> bool {
        &&& forall|k: int| 0 <= k < self.data@.len() ==> (#[trigger] self.data@[k]).wf()
        &&& forall|a: int, b: int| 0 <= a < b < self.data@.len() ==> !((#[trigger] self.data@[a]).include_set() == (#[trigger] self.data@[b]).include_set() && self.data@[a].exclude_set() == self.data@[b].exclude_set())
    }

    /// An empty table.
    pub fn new() -> (r: Self)
        ensures
            r.wf(),
            r.len() == 0,
    {
        QueryTable { data: Vec::new() }
    }

    /// The handle of the query that includes the kinds of `included` and
    /// excludes those of `excluded`: an existing one when the table holds the
    /// same two sets, else a new one. `included` names each kind once.
    pub fn create_query(&mut self, included: &[ComponentId], excluded: &[ComponentId]) -> (r: EntityQuery)
        requires
            old(self).wf(),
            forall|k: int| 0 <= k < included@.len() ==> (#[trigger] included@[k]).valid(),
            forall|k: int| 0 <= k < excluded@.len() ==> (#[trigger] excluded@[k]).valid(),
            !has_repeats(included@),
        ensures
            final(self).wf(),
            r.index < final(self).len(),
            final(self).includes()[r.index as int] == id_set(included@),
            final(self).excludes()[r.index as int] == id_set(excluded@),
            final(self).len() == old(self).len() || final(self).len() == old(self).len() + 1,
            final(self).includes().subrange(0, old(self).len() as int) == old(self).includes(),
            final(self).excludes().subrange(0, old(self).len() as int) == old(self).excludes(),
            (exists|k: int| 0 <= k < old(self).len() && old(self).includes()[k] == id_set(included@) && old(self).excludes()[k] == id_set(excluded@)) <==> final(self).len() == old(self).len(),
            forall|k: int| 0 <= k < old(self).len() && old(self).includes()[k] == id_set(included@) && old(self).excludes()[k] == id_set(excluded@) ==> r.index == k && *final(self) == *old(self),
    {
        let (inc, _) = make_bitfield(included);
        let (exc, _) = make_bitfield(excluded);
        let mut k: usize = 0;
        while k < self.data.len()
            invariant
                self.wf(),
                self == old(self),
                inc.wf(),
                exc.wf(),
                inc@ == id_set(included@),
                exc@ == id_set(excluded@),
                0 <= k <= self.data@.len(),
                forall|j: int| 0 <= j < k ==> !((#[trigger] self.data@[j]).include_set() == inc@ && self.data@[j].exclude_set() == exc@),
            decreases self.data@.len() - k,
        {
            if self.data[k].included.eq(&inc) && self.data[k].excluded.eq(&exc) {
                proof {
                    assert(self.includes()[k as int] == self.data@[k as int].include_set());
                    assert(self.excludes()[k as int] == self.data@[k as int].exclude_set());
                    assert(self.includes().subrange(0, self.len() as int) =~= self.includes());
                    assert(self.excludes().subrange(0, self.len() as int) =~= self.excludes());
                    assert forall|j: int| 0 <= j < self.len() && self.includes()[j] == id_set(included@) && self.excludes()[j] == id_set(excluded@) implies j == k by {
                        assert(self.data@[j].include_set() == self.includes()[j]);
                        assert(self.data@[j].exclude_set() == self.excludes()[j]);
                        if j < k { assert(!(self.data@[j].include_set() == self.data@[k as int].include_set() && self.data@[j].exclude_set() == self.data@[k as int].exclude_set())); }
                        if j > k { assert(!(self.data@[k as int].include_set() == self.data@[j].include_set() && self.data@[k as int].exclude_set() == self.data@[j].exclude_set())); }
                    }
                }
                return EntityQuery { index: k };
            }
            k += 1;
        }
        let ghost pre = self.data@;
        let index = self.data.len();
        self.data.push(EntityQueryData { included: inc, excluded: exc });
        proof {
            assert(self.includes().subrange(0, pre.len() as int) =~= old(self).includes());
            assert(self.excludes().subrange(0, pre.len() as int) =~= old(self).excludes());
            assert(self.includes()[index as int] == self.data@[index as int].include_set());
            assert(self.excludes()[index as int] == self.data@[index as int].exclude_set());
            assert forall|a: int, b: int| 0 <= a < b < self.data@.len() implies !((#[trigger] self.data@[a]).include_set() == (#[trigger] self.data@[b]).include_set() && self.data@[a].exclude_set() == self.data@[b].exclude_set()) by {
                if b == index {
                    assert(self.data@[a] == pre[a]);
                } else {
                    assert(self.data@[a] == pre[a] && self.data@[b] == pre[b]);
                }
            }
            if exists|j: int| 0 <= j < old(self).len() && old(self).includes()[j] == id_set(included@) && old(self).excludes()[j] == id_set(excluded@) {
                let j = choose|j: int| 0 <= j < old(self).len() && old(self).includes()[j] == id_set(included@) && old(self).excludes()[j] == id_set(excluded@);
                assert(pre[j].include_set() == old(self).includes()[j]);
                assert(pre[j].exclude_set() == old(self).excludes()[j]);
            }
        }
        EntityQuery { index }
    }

    /// The number of queries.
    pub fn query_count(&self) -> (r: usize)
        ensures
            r == self.len(),
    {
        self.data.len()
    }

    /// The sets of `query`.
    pub fn get_query_data(&self, query: EntityQuery) -> (r: &EntityQueryData)
        requires
            self.wf(),
            query.index < self.len(),
        ensures
            r.wf(),
            r.include_set() == self.includes()[query.index as int],
            r.exclude_set() == self.excludes()[query.index as int],
    {
        &self.data[query.index]
    }
}

/// Collects the kinds that a query includes and excludes.
pub struct QueryBuilder {
    included: Vec<ComponentId>,
    excluded: Vec<ComponentId>,
}

impl EntityQuery {
    /// A builder of a query that includes and excludes nothing.
    pub fn build() -> (r: QueryBuilder)
        ensures
            r.include_list() == Seq::<ComponentId>::empty(),
            r.exclude_list() == Seq::<ComponentId>::empty(),
    {
        QueryBuilder { included: Vec::new(), excluded: Vec::new() }
    }
}

impl QueryBuilder {
    /// The kinds to included.
    pub closed spec fn include_list(&self) -> Seq<ComponentId> {
        self.included@
    }

    /// The kinds to excluded.
    pub closed spec fn exclude_list(&self) -> Seq<ComponentId> {
        self.excluded@
    }

    /// Set the kinds to include.
    pub fn with_included(self, kinds: Vec<ComponentId>) -> (r: QueryBuilder)
        ensures
            r.include_list() == kinds@,
            r.exclude_list() == self.exclude_list(),
    {
        QueryBuilder { included: kinds, excluded: self.excluded }
    }

    /// Set the kinds to exclude.
    pub fn with_excluded(self, kinds: Vec<ComponentId>) -> (r: QueryBuilder)
        ensures
            r.include_list() == self.include_list(),
            r.exclude_list() == kinds@,
    {
        QueryBuilder { included: self.included, excluded: kinds }
    }

    /// The handle, in `table`, of the query built.
    pub fn create(self, table: &mut QueryTable) -> (r: EntityQuery)
        requires
            old(table).wf(),
            forall|k: int| 0 <= k < self.include_list().len() ==> (#[trigger] self.include_list()[k]).valid(),
            forall|k: int| 0 <= k < self.exclude_list().len() ==> (#[trigger] self.exclude_list()[k]).valid(),
            !has_repeats(self.include_list()),
        ensures
            final(table).wf(),
            r.index < final(table).len(),
            final(table).includes()[r.index as int] == id_set(self.include_list()),
            final(table).excludes()[r.index as int] == id_set(self.exclude_list()),
            final(table).includes().subrange(0, old(table).len() as int) == old(table).includes(),
            final(table).excludes().subrange(0, old(table).len() as int) == old(table).excludes(),
            forall|k: int| 0 <= k < old(table).len() && old(table).includes()[k] == id_set(self.include_list()) && old(table).excludes()[k] == id_set(self.exclude_list()) ==> r.index == k && *final(table) == *old(table),
    {
        let inc = self.included.as_slice();
        let exc = self.excluded.as_slice();
        assert(forall|k: int| 0 <= k < exc@.len() ==> (#[trigger] exc@[k]) == self.exclude_list()[k]);
        assert(inc@ == self.include_list());
        table.create_query(inc, exc)
    }
}

} // verus!
