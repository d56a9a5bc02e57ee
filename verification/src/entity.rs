//! Entity handles.
use vstd::prelude::*;

verus! {

/// A handle to an entity: the position of its cell in the entity registry.
#[derive(Debug, PartialEq, Eq, Hash)]
pub struct Entity {
    pub(crate) registry_index: u32,
}

impl Entity {
    /// The handle of the entity whose registry cell is at `registry_index`.
    pub(crate) fn new(registry_index: u32) -> (r: Entity)
        ensures
            r.index() == registry_index,
    {
        Entity { registry_index }
    }

    /// The position of this entity's registry cell.
    pub closed spec fn index(&self) -> u32 {
        self.registry_index
    }

    pub fn registry_idx(&self) -> (r: u32)
        ensures
            r == self.index(),
    {
        self.registry_index
    }
}

} // verus!
