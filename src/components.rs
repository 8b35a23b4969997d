//! Runtime identity and descriptors of component kinds.

use crate::bit_field::BitField;
use vstd::prelude::*;

verus! {

/// The runtime identifier of a component kind: a dense positive integer,
/// stable for the life of the process that assigned it.
#[derive(Clone, Copy, PartialEq, Eq, Structural, Debug, Hash)]
pub struct ComponentId {
    value: usize,
}

/// The largest component identifier that a [BitField] of kinds can hold.
pub const MAX_COMPONENT_ID: usize = 0xFFFF_FFFF;

impl ComponentId {
    /// The identifier's number.
    pub closed spec fn spec_value(&self) -> nat {
        self.value as nat
    }

    /// An identifier is positive (zero means "unset"), fits in 32 bits, and
    /// leaves a word of room below the largest `usize` (a limit only on
    /// targets whose `usize` has 32 bits).
    pub open spec fn valid(&self) -> bool {
        0 < self.spec_value() <= MAX_COMPONENT_ID && self.spec_value() < usize::MAX - 32
    }

    /// Whether the identifier is valid.
    pub fn is_valid(&self) -> (r: bool)
        ensures
            r == self.valid(),
    {
        0 < self.value && self.value <= MAX_COMPONENT_ID && self.value < usize::MAX - 32
    }

    /// The [ComponentId] of the component type `T`.
    pub fn of<T: Component>() -> (r: ComponentId)
        ensures
            r == T::spec_component_id(),
            r.valid(),
    {
        T::component_id()
    }

    /// Make an identifier from its number.
    pub fn from_value(value: usize) -> (r: ComponentId)
        ensures
            r.spec_value() == value,
    {
        ComponentId { value }
    }

    /// The identifier's number.
    pub fn value(&self) -> (r: usize)
        ensures
            r == self.spec_value(),
    {
        self.value
    }
}

/// Hands out fresh component identifiers: 1, 2, 3, and so on.
pub struct ComponentIdGenerator {
    next: usize,
}

impl ComponentIdGenerator {
    /// The number that the next identifier will carry.
    pub closed spec fn next_value(&self) -> nat {
        self.next as nat
    }

    /// A generator whose first identifier is 1.
    pub fn new() -> (r: Self)
        ensures
            r.next_value() == 1,
    {
        ComponentIdGenerator { next: 1 }
    }

    /// The number that the next identifier will carry.
    pub fn upcoming(&self) -> (r: usize)
        ensures
            r == self.next_value(),
    {
        self.next
    }

    /// Generate a new identifier, distinct from every one generated before.
    pub fn get_next(&mut self) -> (r: ComponentId)
        requires
            1 <= old(self).next_value() <= MAX_COMPONENT_ID,
            old(self).next_value() < usize::MAX - 32,
        ensures
            r.spec_value() == old(self).next_value(),
            r.valid(),
            final(self).next_value() == old(self).next_value() + 1,
    {
        let value = self.next;
        self.next = self.next + 1;
        ComponentId { value }
    }
}

/// A piece of data associated with an entity: a fixed-size record of bytes
/// whose kind has a runtime identifier and a default value.
pub trait Component {
    /// The kind's runtime identifier.
    spec fn spec_component_id() -> ComponentId;

    /// The bytes of the kind's default value.
    spec fn spec_default_record() -> Seq<u8>;

    /// The kind's runtime identifier, a valid one.
    fn component_id() -> (r: ComponentId)
        ensures
            r == Self::spec_component_id(),
            r.valid(),
    ;

    /// The bytes of the kind's default value; their number is the record size.
    fn default_record() -> (r: Vec<u8>)
        ensures
            r@ == Self::spec_default_record(),
    ;
}

/// The runtime descriptor of a component kind: its identifier and its
/// default record, whose length is the kind's record size.
pub struct ComponentType {
    id: ComponentId,
    default_value: Vec<u8>,
}

impl ComponentType {
    /// The kind's identifier.
    pub closed spec fn spec_id(&self) -> ComponentId {
        self.id
    }

    /// The kind's default record.
    pub closed spec fn spec_default(&self) -> Seq<u8> {
        self.default_value@
    }

    /// Describe a component kind by its identifier and default record.
    pub fn new(id: ComponentId, default_value: Vec<u8>) -> (r: Self)
        ensures
            r.spec_id() == id,
            r.spec_default() == default_value@,
    {
        ComponentType { id, default_value }
    }

    /// The [ComponentType] of `T`.
    pub fn of<T: Component>() -> (r: Self)
        ensures
            r.spec_id() == T::spec_component_id(),
            r.spec_id().valid(),
            r.spec_default() == T::spec_default_record(),
    {
        Self::new(T::component_id(), T::default_record())
    }

    /// The kind's runtime identifier.
    pub fn id(&self) -> (r: ComponentId)
        ensures
            r == self.spec_id(),
    {
        self.id
    }

    /// The kind's default record.
    pub fn default_value(&self) -> (r: &[u8])
        ensures
            r@ == self.spec_default(),
    {
        self.default_value.as_slice()
    }

    /// The kind's record size in bytes.
    pub fn size(&self) -> (r: usize)
        ensures
            r == self.spec_default().len(),
    {
        self.default_value.len()
    }

    /// A copy of this descriptor.
    pub fn duplicate(&self) -> (r: Self)
        ensures
            r.spec_id() == self.spec_id(),
            r.spec_default() == self.spec_default(),
    {
        ComponentType { id: self.id, default_value: copy_bytes(self.default_value.as_slice()) }
    }
}

impl PartialEq for ComponentType {
    /// Two descriptors are equal when they describe the same kind.
    fn eq(&self, other: &ComponentType) -> (r: bool)
        ensures
            r == (self.spec_id().spec_value() == other.spec_id().spec_value()),
    {
        self.id.value == other.id.value
    }
}

impl vstd::std_specs::cmp::PartialEqSpecImpl for ComponentType {
    open spec fn obeys_eq_spec() -> bool {
        true
    }

    open spec fn eq_spec(&self, other: &ComponentType) -> bool {
        self.spec_id().spec_value() == other.spec_id().spec_value()
    }
}

/// A new vector holding the bytes of `src`.
pub fn copy_bytes(src: &[u8]) -> (r: Vec<u8>)
    ensures
        r@ == src@,
{
    let mut r: Vec<u8> = Vec::new();
    let mut k: usize = 0;
    while k < src.len()
        invariant
            0 <= k <= src@.len(),
            r@ == src@.subrange(0, k as int),
        decreases src@.len() - k,
    {
        r.push(src[k]);
        k += 1;
        assert(r@ =~= src@.subrange(0, k as int));
    }
    assert(src@.subrange(0, src@.len() as int) =~= src@);
    r
}

/// The identifiers of a list of component kinds.
pub open spec fn type_ids(ts: Seq<ComponentType>) -> Seq<ComponentId> {
    ts.map_values(|c: ComponentType| c.spec_id())
}

/// The set of the identifiers' numbers.
pub open spec fn id_set(ids: Seq<ComponentId>) -> Set<nat> {
    Set::new(|v: nat| exists|k: int| 0 <= k < ids.len() && (#[trigger] ids[k]).spec_value() == v)
}

/// Whether some identifier occurs twice in `ids`.
pub open spec fn has_repeats(ids: Seq<ComponentId>) -> bool {
    exists|a: int, b: int|
        0 <= a < b < ids.len() && (#[trigger] ids[a]).spec_value() == (#[trigger] ids[b]).spec_value()
}

/// Build the bit field of a list of component identifiers, and tell whether
/// the list names a kind twice.
pub fn make_bitfield(components: &[ComponentId]) -> (r: (BitField, bool))
    requires
        forall|k: int| 0 <= k < components@.len() ==> (#[trigger] components@[k]).valid(),
    ensures
        r.0.wf(),
        r.0@ == id_set(components@),
        r.1 == has_repeats(components@),
{
    let mut bitfield = BitField::new();
    let mut repeats = false;
    let mut k: usize = 0;
    while k < components.len()
        invariant
            0 <= k <= components@.len(),
            bitfield.wf(),
            forall|j: int| 0 <= j < components@.len() ==> (#[trigger] components@[j]).valid(),
            bitfield@ == id_set(components@.subrange(0, k as int)),
            repeats == has_repeats(components@.subrange(0, k as int)),
        decreases components@.len() - k,
    {
        let v = components[k].value();
        let ghost prefix = components@.subrange(0, k as int);
        let ghost next = components@.subrange(0, k + 1);
        let seen = bitfield.get(v);
        proof {
            assert(components@[k as int].valid());
            assert(next =~= prefix.push(components@[k as int]));
        }
        bitfield.set(v, true);
        proof {
            if has_repeats(next) {
                let (a, b) = choose|a: int, b: int|
                    0 <= a < b < next.len() && (#[trigger] next[a]).spec_value() == (#[trigger] next[b]).spec_value();
                if b == prefix.len() {
                    assert(id_set(prefix).contains(v as nat)) by {
                        assert(prefix[a].spec_value() == v);
                    }
                } else {
                    assert(prefix[a] == next[a] && prefix[b] == next[b]);
                }
            }
            if seen {
                let j = choose|j: int| 0 <= j < prefix.len() && (#[trigger] prefix[j]).spec_value() == v as nat;
                assert(next[j].spec_value() == next[k as int].spec_value());
            }
            if has_repeats(prefix) {
                let (a, b) = choose|a: int, b: int|
                    0 <= a < b < prefix.len() && (#[trigger] prefix[a]).spec_value() == (#[trigger] prefix[b]).spec_value();
                assert(next[a] == prefix[a] && next[b] == prefix[b]);
            }
            assert forall|x: nat| #[trigger] bitfield@.contains(x) == id_set(next).contains(x) by {
                if x == v {
                    assert(next[k as int].spec_value() == x);
                }
                if id_set(next).contains(x) {
                    let j = choose|j: int| 0 <= j < next.len() && (#[trigger] next[j]).spec_value() == x;
                    if j < prefix.len() {
                        assert(prefix[j] == next[j]);
                    }
                }
                if id_set(prefix).contains(x) {
                    let j = choose|j: int| 0 <= j < prefix.len() && (#[trigger] prefix[j]).spec_value() == x;
                    assert(prefix[j] == next[j]);
                }
            }
            assert(bitfield@ =~= id_set(next));
        }
        repeats = repeats || seen;
        k += 1;
    }
    assert(components@.subrange(0, components@.len() as int) =~= components@);
    (bitfield, repeats)
}

} // verus!
