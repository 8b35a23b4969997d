//! Entity handles.

use vstd::prelude::*;

verus! {

/// A handle to an entity: the index of its row in the registry's instance
/// table and the generation of that row when the entity was created.
#[derive(Clone, Copy, PartialEq, Eq, Structural, Debug, Hash)]
pub struct Entity {
    /// The row of the instance table.
    pub index: u32,
    /// The row's generation when the entity was created.
    pub version: u32,
}

impl Entity {
    /// The handle that names row `index` at generation `version`.
    pub fn new(index: u32, version: u32) -> (r: Entity)
        ensures
            r.index == index,
            r.version == version,
    {
        Entity { index, version }
    }

    /// The handle `{index: 0, version: 0}`, which names no entity: every
    /// row starts at generation 1.
    pub fn null() -> (r: Entity)
        ensures
            r.index == 0,
            r.version == 0,
    {
        Entity { index: 0, version: 0 }
    }
}

} // verus!
