//! The entity registry: for every entity, where its row lives and how many
//! handles to it are alive.
use crate::entity::Entity;
use crate::archetypes::ArchetypeId;
use vstd::prelude::*;
use vstd::wrapping::u32_specs::{wrapping_add, wrapping_sub};

verus! {

/// Where an entity's row lives, and how many handles to the entity exist.
#[derive(Clone, Copy, Debug)]
pub struct RegistryCell {
    pub archetype_id: ArchetypeId,
    pub idx: u32,
    pub handle_count: u32,
}

/// The cells of all entities, indexed by entity handle.
pub struct Registry {
    pub(crate) cells: Vec<RegistryCell>,
}

impl View for Registry {
    type V = Seq<RegistryCell>;

    closed spec fn view(&self) -> Seq<RegistryCell> {
        self.cells@
    }
}

/// `cells` with the handle count of cell `i` replaced by `count`.
pub open spec fn with_count(cells: Seq<RegistryCell>, i: int, count: u32) -> Seq<RegistryCell> {
    cells.update(i, RegistryCell { handle_count: count, ..cells[i] })
}

impl Registry {
    pub fn new() -> (r: Registry)
        ensures
            r@ == Seq::<RegistryCell>::empty(),
    {
        Registry { cells: Vec::new() }
    }

    pub fn len(&self) -> (r: usize)
        ensures
            r == self@.len(),
    {
        self.cells.len()
    }

    pub fn push(&mut self, cell: RegistryCell)
        ensures
            final(self)@ == old(self)@.push(cell),
    {
        self.cells.push(cell);
    }

    /// The cell at `index`.
    pub fn get(&self, index: usize) -> (r: RegistryCell)
        requires
            index < self@.len(),
        ensures
            r == self@[index as int],
    {
        self.cells[index]
    }

    /// Records that the entity's row now lives at `idx` of archetype
    /// `archetype_id`.
    pub fn set_location(&mut self, index: usize, archetype_id: ArchetypeId, idx: u32)
        requires
            index < old(self)@.len(),
        ensures
            final(self)@ == old(self)@.update(
                index as int,
                RegistryCell { archetype_id, idx, ..old(self)@[index as int] },
            ),
    {
        let mut cell = self.cells[index];
        cell.archetype_id = archetype_id;
        cell.idx = idx;
        self.cells.set(index, cell);
    }

    /// One handle to the entity at `index` is gone; the count wraps around
    /// below zero.
    pub fn decrement_handle(&mut self, index: usize)
        requires
            index < old(self)@.len(),
        ensures
            final(self)@ == with_count(
                old(self)@,
                index as int,
                wrapping_sub(old(self)@[index as int].handle_count, 1),
            ),
    {
        let mut cell = self.cells[index];
        cell.handle_count = cell.handle_count.wrapping_sub(1);
        self.cells.set(index, cell);
    }

    /// One more handle to the entity at `index`; the count wraps around
    /// above the maximum.
    pub fn increment_handle(&mut self, index: usize)
        requires
            index < old(self)@.len(),
        ensures
            final(self)@ == with_count(
                old(self)@,
                index as int,
                wrapping_add(old(self)@[index as int].handle_count, 1),
            ),
    {
        let mut cell = self.cells[index];
        cell.handle_count = cell.handle_count.wrapping_add(1);
        self.cells.set(index, cell);
    }

    /// Another handle to the same entity, counted in its cell.
    pub fn clone_entity(&mut self, entity: &Entity) -> (r: Entity)
        requires
            (entity.index() as int) < old(self)@.len(),
        ensures
            r.index() == entity.index(),
            final(self)@ == with_count(
                old(self)@,
                entity.index() as int,
                wrapping_add(old(self)@[entity.index() as int].handle_count, 1),
            ),
    {
        let i = entity.registry_idx();
        self.increment_handle(i as usize);
        Entity::new(i)
    }

    /// Gives up a handle, counted in its cell.
    pub fn release_entity(&mut self, entity: Entity)
        requires
            (entity.index() as int) < old(self)@.len(),
        ensures
            final(self)@ == with_count(
                old(self)@,
                entity.index() as int,
                wrapping_sub(old(self)@[entity.index() as int].handle_count, 1),
            ),
    {
        let i = entity.registry_idx();
        self.decrement_handle(i as usize);
    }
}

/// Cloning a handle and then releasing a handle of the same entity leaves
/// every cell as it was.
pub proof fn lemma_clone_then_release(cells: Seq<RegistryCell>, i: int)
    requires
        0 <= i < cells.len(),
    ensures
        with_count(
            with_count(cells, i, wrapping_add(cells[i].handle_count, 1)),
            i,
            wrapping_sub(with_count(cells, i, wrapping_add(cells[i].handle_count, 1))[i].handle_count, 1),
        ) == cells,
{
    let c = cells[i].handle_count;
    assert(wrapping_sub(wrapping_add(c, 1), 1) == c);
    assert(with_count(
        with_count(cells, i, wrapping_add(cells[i].handle_count, 1)),
        i,
        wrapping_sub(with_count(cells, i, wrapping_add(cells[i].handle_count, 1))[i].handle_count, 1),
    ) =~= cells);
}

} // verus!
