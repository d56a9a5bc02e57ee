//! The world: archetype storage, the entity registry, resources, event
//! buffers, pending commands, and the end-of-frame bookkeeping that ties
//! them together.
use crate::archetypes::{cleared_from, column_ids, lookup_or_create, set_hash, swap_removed, synced, ArchetypeId, ArchetypeManager, ComponentColumn};
use crate::commands::{despawn_indices, CommandQueue, Commands, DespawnSet};
use crate::entity::Entity;
use crate::filter::QueryFilter;
use crate::query::{all_rows, archetype_matches, Query};
use crate::events::{EventBuffer, TrackedEvents};
use crate::reactivity::{advanced, after_frame, stamp_seen, write_slot, CurrentBufferIdx, MarkerColumn, ReadContext, TrackedComponents};
use crate::generation::{next_generation, previous_generation};
use crate::registry::{with_count, Registry, RegistryCell};
use crate::resources::{Res, ResMut};
use crate::system_data::map_get_mut;
use crate::validation::{ComponentId, FunctionGenerationData, ParamAccess};
use vstd::wrapping::u32_specs::wrapping_sub;
use std::collections::HashMap;
use vstd::prelude::*;

verus! {

broadcast use vstd::std_specs::hash::group_hash_axioms;

/// What a world operation refused. Both are fatal mistakes of the program
/// that drives the world, which stops on them; the operation states on which
/// inputs it refuses and what it leaves behind.
pub enum WorldError {
    /// The event type was initialised before.
    EventAlreadyInitialized(ComponentId),
    /// The entity at this registry position was due to be despawned while
    /// other handles to it were still alive; `kinds` names the kinds of its
    /// archetype.
    HandlesAlive { entity: u32, archetype: ArchetypeId, handles: u32, kinds: Vec<&'static str> },
}

/// `s` is in decreasing order.
pub open spec fn sorted_descending(s: Seq<u32>) -> bool {
    forall|i: int, j: int| 0 <= i < j < s.len() ==> s[i] >= s[j]
}

/// Sorts `v` into decreasing order.
pub fn sort_descending(v: &mut Vec<u32>)
    ensures
        sorted_descending(final(v)@),
        final(v)@.to_multiset() == old(v)@.to_multiset(),
{
    let ghost start = v@;
    let mut out: Vec<u32> = Vec::new();
    let mut i: usize = 0;
    assert(out@ =~= start.subrange(0, 0));
    while i < v.len()
        invariant
            i <= start.len(),
            v@ == start,
            sorted_descending(out@),
            out@.to_multiset() == start.subrange(0, i as int).to_multiset(),
        decreases start.len() - i,
    {
        let x = v[i];
        let mut p: usize = 0;
        while p < out.len() && out[p] >= x
            invariant
                p <= out@.len(),
                forall|k: int| 0 <= k < p ==> out@[k] >= x,
            decreases out@.len() - p,
        {
            p += 1;
        }
        proof {
            assert forall|k: int| p <= k < out@.len() implies out@[k] < x by {
                if p < out@.len() {
                    assert(out@[p as int] < x);
                    assert(out@[p as int] >= out@[k]);
                }
            }
        }
        let ghost before = out@;
        out.insert(p, x);
        proof {
            assert(out@ == before.insert(p as int, x));
            vstd::seq_lib::to_multiset_insert(before, p as int, x);
            vstd::seq_lib::to_multiset_build(start.subrange(0, i as int), x);
            assert forall|a: int, b: int| 0 <= a < b < out@.len() implies out@[a] >= out@[b] by {
                if b < p {
                } else if b == p {
                } else if a < p {
                    assert(out@[b] == before[b - 1]);
                } else if a == p {
                    assert(out@[b] == before[b - 1]);
                } else {
                    assert(out@[a] == before[a - 1]);
                    assert(out@[b] == before[b - 1]);
                }
            }
            assert(start.subrange(0, i as int + 1) == start.subrange(0, i as int).push(x));
        }
        i += 1;
    }
    assert(start.subrange(0, start.len() as int) == start);
    *v = out;
}

/// Some entry of `targets` is `j`.
pub open spec fn targeted(targets: Seq<u32>, j: int) -> bool {
    exists|k: int| 0 <= k < targets.len() && (#[trigger] targets[k]) as int == j
}

/// The registry after each targeted entity has given up one handle.
pub open spec fn released(cells: Seq<RegistryCell>, targets: Seq<u32>) -> Seq<RegistryCell> {
    Seq::new(
        cells.len(),
        |j: int|
            if targeted(targets, j) {
                RegistryCell { handle_count: wrapping_sub(cells[j].handle_count, 1), ..cells[j] }
            } else {
                cells[j]
            },
    )
}

/// The entity at registry position `t` still has handles.
pub open spec fn alive(cells: Seq<RegistryCell>, t: u32) -> bool {
    (t as int) < cells.len() && cells[t as int].handle_count != 0
}

/// The targets that have a registry cell, in order.
pub open spec fn in_range(cells: Seq<RegistryCell>, targets: Seq<u32>) -> Seq<u32> {
    targets.filter(|t: u32| (t as int) < cells.len())
}

/// The error owed when the entry at position `k` of `targets` is the first
/// that still has handles.
pub open spec fn first_alive(cells: Seq<RegistryCell>, targets: Seq<u32>, k: int) -> bool {
    &&& 0 <= k < targets.len()
    &&& alive(cells, targets[k])
    &&& forall|j: int| 0 <= j < k ==> !alive(cells, #[trigger] targets[j])
}

/// The registry positions of each archetype's entities, by row.
pub open spec fn rows_of<V>(m: ArchetypeManager<V>) -> Seq<Seq<u32>> {
    Seq::new(m.archetypes().len(), |i: int| m.archetypes()[i].entity_handles())
}

/// Despawning the entity at registry position `t`: its row is removed from
/// its archetype, the archetype's last row moving into its place, and the
/// moved entity's registry cell is pointed at its new row. A target whose
/// cell names no existing row changes nothing.
pub open spec fn despawn_step(rows: Seq<Seq<u32>>, cells: Seq<RegistryCell>, t: u32) -> (
    Seq<Seq<u32>>,
    Seq<RegistryCell>,
) {
    if (t as int) < cells.len() && (cells[t as int].archetype_id.0 as int) < rows.len() && (
    cells[t as int].idx as int) < rows[cells[t as int].archetype_id.0 as int].len() {
        let a = cells[t as int].archetype_id.0 as int;
        let row = cells[t as int].idx as int;
        let h = rows[a];
        let moved = h.last() as int;
        (
            rows.update(a, swap_removed(h, row)),
            if row < h.len() - 1 && moved < cells.len() {
                cells.update(
                    moved,
                    RegistryCell { archetype_id: cells[t as int].archetype_id, idx: row as u32, ..cells[moved] },
                )
            } else {
                cells
            },
        )
    } else {
        (rows, cells)
    }
}

/// Despawning the targets one after another, in order.
pub open spec fn despawn_all(rows: Seq<Seq<u32>>, cells: Seq<RegistryCell>, targets: Seq<u32>) -> (
    Seq<Seq<u32>>,
    Seq<RegistryCell>,
)
    decreases targets.len(),
{
    if targets.len() == 0 {
        (rows, cells)
    } else {
        let p = despawn_all(rows, cells, targets.drop_last());
        despawn_step(p.0, p.1, targets.last())
    }
}

/// Moving the entity at registry position `t` into archetype `id`: its row
/// leaves its archetype as in a despawn, and it takes the next row of `id`,
/// its registry cell pointing there.
pub open spec fn move_step(rows: Seq<Seq<u32>>, cells: Seq<RegistryCell>, t: u32, id: ArchetypeId) -> (
    Seq<Seq<u32>>,
    Seq<RegistryCell>,
) {
    let p = despawn_step(rows, cells, t);
    let a = id.0 as int;
    (
        p.0.update(a, p.0[a].push(t)),
        p.1.update(t as int, RegistryCell { archetype_id: id, idx: p.0[a].len() as u32, ..p.1[t as int] }),
    )
}

/// Spawning an entity into archetype `id` and then despawning it, with no
/// other handle to it alive, gives every archetype back the rows it had.
pub proof fn lemma_spawn_then_despawn(rows: Seq<Seq<u32>>, cells: Seq<RegistryCell>, id: ArchetypeId)
    requires
        (id.0 as int) < rows.len(),
        cells.len() < u32::MAX,
        rows[id.0 as int].len() < u32::MAX,
    ensures
        ({
            let t = cells.len() as u32;
            let a = id.0 as int;
            let spawned_rows = rows.update(a, rows[a].push(t));
            let spawned_cells = cells.push(
                RegistryCell { archetype_id: id, idx: rows[a].len() as u32, handle_count: 1 },
            );
            let after_release = released(spawned_cells, seq![t]);
            &&& !alive(after_release, t)
            &&& despawn_all(spawned_rows, after_release, seq![t]).0 == rows
        }),
{
    let t = cells.len() as u32;
    let a = id.0 as int;
    let spawned_rows = rows.update(a, rows[a].push(t));
    let spawned_cells = cells.push(RegistryCell { archetype_id: id, idx: rows[a].len() as u32, handle_count: 1 });
    let after_release = released(spawned_cells, seq![t]);
    assert(seq![t][0] == t);
    assert(targeted(seq![t], t as int));
    assert(after_release[t as int].handle_count == 0);
    assert(seq![t].drop_last() =~= Seq::<u32>::empty());
    assert(despawn_all(spawned_rows, after_release, Seq::<u32>::empty()) == (spawned_rows, after_release));
    let h = spawned_rows[a];
    assert(swap_removed(h, rows[a].len() as int) =~= rows[a]);
    assert(spawned_rows.update(a, rows[a]) =~= rows);
}

/// The values of column `col` after a bundle of kinds `kinds` with values
/// `values` is stored in a new row: the value of the column's kind is
/// appended, and a column of a kind outside the bundle is left alone.
pub open spec fn bundle_values<V>(col: ComponentColumn<V>, kinds: Seq<ComponentId>, values: Seq<V>) -> Seq<V> {
    if kinds.contains(col.spec_component()) {
        col.values().push(values[kinds.index_of(col.spec_component())])
    } else {
        col.values()
    }
}

/// `vals` with the value of kind `c` appended when the bundle `kinds` has
/// one.
pub open spec fn bundle_seq<V>(vals: Seq<V>, c: ComponentId, kinds: Seq<ComponentId>, values: Seq<V>) -> Seq<V> {
    if kinds.contains(c) {
        vals.push(values[kinds.index_of(c)])
    } else {
        vals
    }
}

/// `vals` with the value of kind `c` that row `row` holds in the columns
/// `src` appended, when `src` has that kind at that row and the kind is not
/// among `added`.
pub open spec fn carried_seq<V>(
    vals: Seq<V>,
    c: ComponentId,
    src: Seq<ComponentColumn<V>>,
    row: int,
    added: Seq<ComponentId>,
) -> Seq<V> {
    let k = column_ids(src).index_of(c);
    if !added.contains(c) && column_ids(src).contains(c) && row < src[k].values().len() {
        vals.push(src[k].values()[row])
    } else {
        vals
    }
}

/// `vals` with row `row` replaced by the value of kind `c` when the bundle
/// `kinds` has one and the row exists.
pub open spec fn replaced_seq<V>(vals: Seq<V>, c: ComponentId, row: int, kinds: Seq<ComponentId>, values: Seq<V>) -> Seq<V> {
    if kinds.contains(c) && row < vals.len() {
        vals.update(row, values[kinds.index_of(c)])
    } else {
        vals
    }
}

/// Extending the prefix of source columns by column `k` changes the carried
/// values of kind `cq` only when `cq` is column `k`'s kind.
proof fn lemma_carried_step<V>(vals: Seq<V>, cq: ComponentId, s0: Seq<ComponentColumn<V>>, k: int, row: int, added: Seq<ComponentId>)
    requires
        column_ids(s0).no_duplicates(),
        0 <= k < s0.len(),
    ensures
        cq != s0[k].spec_component() ==> carried_seq(vals, cq, s0.subrange(0, k + 1), row, added) == carried_seq(
            vals,
            cq,
            s0.subrange(0, k),
            row,
            added,
        ),
        cq == s0[k].spec_component() ==> carried_seq(vals, cq, s0.subrange(0, k), row, added) == vals,
        cq == s0[k].spec_component() ==> carried_seq(vals, cq, s0.subrange(0, k + 1), row, added) == if !added.contains(
            cq,
        ) && row < s0[k].values().len() {
            vals.push(s0[k].values()[row])
        } else {
            vals
        },
{
    let p = s0.subrange(0, k);
    let q = s0.subrange(0, k + 1);
    let ip = column_ids(p);
    let iq = column_ids(q);
    assert forall|i: int| 0 <= i < ip.len() implies ip[i] == column_ids(s0)[i] by {}
    assert forall|i: int| 0 <= i < iq.len() implies iq[i] == column_ids(s0)[i] by {}
    if cq != s0[k].spec_component() {
        if iq.contains(cq) {
            let i = iq.index_of(cq);
            assert(0 <= i < iq.len() && iq[i] == cq);
            assert(i != k);
            assert(ip[i] == cq);
            assert(ip.contains(cq));
            let j = ip.index_of(cq);
            assert(0 <= j < ip.len() && ip[j] == cq);
            assert(column_ids(s0)[i] == column_ids(s0)[j]);
            assert(i == j);
        } else {
            if ip.contains(cq) {
                let j = choose|j: int| 0 <= j < ip.len() && ip[j] == cq;
                assert(iq[j] == cq);
            }
        }
    } else {
        if ip.contains(cq) {
            let j = choose|j: int| 0 <= j < ip.len() && ip[j] == cq;
            assert(column_ids(s0)[j] == column_ids(s0)[k]);
        }
        assert(iq[k] == cq);
        assert(iq.contains(cq));
        let i = iq.index_of(cq);
        assert(0 <= i < iq.len() && iq[i] == cq);
        assert(column_ids(s0)[i] == column_ids(s0)[k]);
        assert(i == k);
    }
}

/// Every column of `a` holds one value per row.
pub open spec fn aligned<V>(a: crate::archetypes::Archetype<V>) -> bool {
    forall|k: int| 0 <= k < a.columns().len() ==> (#[trigger] a.columns()[k]).values().len() == a.entity_count()
}

/// Storing a bundle that covers every column of an archetype whose columns
/// hold one value per row, in a new row, keeps one value per row; the new
/// row holds the bundle's value of each column's kind, and the other rows
/// keep theirs. So what `spawn` stores is what a query reads back.
pub proof fn lemma_spawned_values_read_back<V>(
    b: crate::archetypes::Archetype<V>,
    a: crate::archetypes::Archetype<V>,
    kinds: Seq<ComponentId>,
    values: Seq<V>,
)
    requires
        aligned(b),
        a.entity_count() == b.entity_count() + 1,
        a.columns().len() == b.columns().len(),
        forall|k: int|
            0 <= k < b.columns().len() ==> {
                &&& (#[trigger] a.columns()[k]).spec_component() == b.columns()[k].spec_component()
                &&& a.columns()[k].values() == bundle_values(b.columns()[k], kinds, values)
                &&& kinds.contains(b.columns()[k].spec_component())
            },
    ensures
        aligned(a),
        forall|k: int|
            0 <= k < a.columns().len() ==> (#[trigger] a.columns()[k]).values()[b.entity_count() as int]
                == values[kinds.index_of(a.columns()[k].spec_component())],
        forall|k: int, r: int|
            0 <= k < a.columns().len() && 0 <= r < b.entity_count() ==> #[trigger] a.columns()[k].values()[r]
                == b.columns()[k].values()[r],
{
    assert forall|k: int| 0 <= k < a.columns().len() implies (#[trigger] a.columns()[k]).values().len() == a.entity_count() by {
        assert(b.columns()[k].values().len() == b.entity_count());
    }
}

/// `cell` names an existing row of `m`.
pub open spec fn row_exists<V>(m: ArchetypeManager<V>, cell: RegistryCell) -> bool {
    &&& (cell.archetype_id.0 as int) < m.archetypes().len()
    &&& (cell.idx as int) < m.archetypes()[cell.archetype_id.0 as int].entity_count()
}

/// An event buffer number is registered, under itself.
pub open spec fn event_registered(t: Seq<(ComponentId, ComponentId)>, id: ComponentId) -> bool {
    exists|i: int| 0 <= i < t.len() && (#[trigger] t[i]).1 == id
}

/// The components, entities, resources, events and pending commands of a
/// running app.
pub struct World<V, R, E, C> {
    pub(crate) archetypes_manager: ArchetypeManager<V>,
    pub(crate) registry: Registry,
    pub(crate) resources: HashMap<ComponentId, R>,
    pub(crate) events: HashMap<ComponentId, EventBuffer<E>>,
    pub(crate) tracked_events: TrackedEvents,
    pub(crate) trackers: TrackedComponents,
    pub(crate) buffer: CurrentBufferIdx,
    pub(crate) generation: u8,
    pub(crate) queue: CommandQueue<C>,
    pub(crate) despawns: DespawnSet,
    pub(crate) free_indices_list: Vec<u32>,
}

/// Whether `s` holds `x`.
fn slice_contains(s: &[ComponentId], x: ComponentId) -> (r: bool)
    ensures
        r == s@.contains(x),
{
    let mut i: usize = 0;
    while i < s.len()
        invariant
            i <= s@.len(),
            forall|j: int| 0 <= j < i ==> s@[j] != x,
        decreases s@.len() - i,
    {
        if s[i] == x {
            return true;
        }
        i += 1;
    }
    false
}

impl<V, R, E, C> World<V, R, E, C> {
    pub closed spec fn manager(&self) -> ArchetypeManager<V> {
        self.archetypes_manager
    }

    pub closed spec fn registry(&self) -> Seq<RegistryCell> {
        self.registry@
    }

    pub closed spec fn resources(&self) -> Map<ComponentId, R> {
        self.resources@
    }

    pub closed spec fn events(&self) -> Map<ComponentId, EventBuffer<E>> {
        self.events@
    }

    pub closed spec fn tracked_events(&self) -> Seq<(ComponentId, ComponentId)> {
        self.tracked_events@
    }

    pub closed spec fn trackers(&self) -> Seq<(ComponentId, ComponentId, crate::reactivity::MarkerKind)> {
        self.trackers@
    }

    /// The marker slot that queries read this frame.
    pub closed spec fn read_slot(&self) -> u8 {
        self.buffer@
    }

    /// The current generation, on the ring `1..=255`.
    pub closed spec fn generation(&self) -> u8 {
        self.generation
    }

    /// What a system that last ran in `last_run` and has id `system_id`
    /// brings to a query in this frame.
    pub open spec fn context_for(&self, last_run: u8, system_id: u32) -> ReadContext {
        ReadContext { read_slot: self.read_slot(), generation: self.generation(), last_run, system_id }
    }

    pub closed spec fn queued(&self) -> Seq<C> {
        self.queue@
    }

    pub closed spec fn pending_despawns(&self) -> Seq<u32> {
        self.despawns.indices()
    }

    /// Registry positions free for reuse, largest first once despawns have
    /// been applied.
    pub closed spec fn free_indices(&self) -> Seq<u32> {
        self.free_indices_list@
    }

    /// The archetype storage is consistent, one marker slot is read, no
    /// despawn is pending twice, and the event buffers are exactly those of
    /// the registered event types, each registered under its own number.
    pub closed spec fn wf(&self) -> bool {
        &&& self.archetypes_manager.wf()
        &&& self.buffer.wf()
        &&& self.generation >= 1
        &&& self.despawns.wf()
        &&& forall|i: int|
            0 <= i < self.tracked_events@.len() ==> (#[trigger] self.tracked_events@[i]).0
                == self.tracked_events@[i].1
        &&& forall|i: int, j: int|
            0 <= i < j < self.tracked_events@.len() ==> (#[trigger] self.tracked_events@[i]).0
                != (#[trigger] self.tracked_events@[j]).0
        &&& forall|id: ComponentId|
            #[trigger] self.events@.contains_key(id) <==> event_registered(self.tracked_events@, id)
    }

    pub fn new() -> (r: World<V, R, E, C>)
        ensures
            r.wf(),
            r.manager().archetypes().len() == 0,
            r.registry().len() == 0,
            r.resources() == Map::<ComponentId, R>::empty(),
            r.events() == Map::<ComponentId, EventBuffer<E>>::empty(),
            r.tracked_events().len() == 0,
            r.trackers().len() == 0,
            r.read_slot() == 1,
            r.generation() == 1,
            r.queued().len() == 0,
            r.pending_despawns().len() == 0,
            r.free_indices().len() == 0,
    {
        World {
            archetypes_manager: ArchetypeManager::new(),
            registry: Registry::new(),
            resources: HashMap::new(),
            events: HashMap::new(),
            tracked_events: TrackedEvents::new(),
            trackers: TrackedComponents::new(),
            buffer: CurrentBufferIdx::new(),
            generation: 1,
            queue: CommandQueue::new(),
            despawns: DespawnSet::new(),
            free_indices_list: Vec::new(),
        }
    }

    /// Stores `resource` under `id`, replacing what was there.
    pub fn insert_resource(&mut self, id: ComponentId, resource: R)
        requires
            old(self).wf(),
        ensures
            final(self).wf(),
            final(self).resources() == old(self).resources().insert(id, resource),
            final(self).events() == old(self).events(),
    {
        self.resources.insert(id, resource);
    }

    /// Drops the resource under `id`; true when there was one.
    pub fn remove_resource(&mut self, id: ComponentId) -> (r: bool)
        requires
            old(self).wf(),
        ensures
            final(self).wf(),
            r == old(self).resources().contains_key(id),
            final(self).resources() == old(self).resources().remove(id),
            final(self).events() == old(self).events(),
    {
        self.resources.remove(&id).is_some()
    }

    /// The resource under `id`, which must be there.
    pub fn get_resource(&self, id: ComponentId) -> (r: &R)
        requires
            self.resources().contains_key(id),
        ensures
            *r == self.resources()[id],
    {
        self.resources.get(&id).unwrap()
    }

    /// The resource under `id`, if there is one.
    pub fn get_resource_opt(&self, id: ComponentId) -> (r: Option<&R>)
        ensures
            match r {
                Some(v) => self.resources().contains_key(id) && *v == self.resources()[id],
                None => !self.resources().contains_key(id),
            },
    {
        self.resources.get(&id)
    }

    /// The resource under `id`, which must be there, for writing.
    pub fn get_resource_mut(&mut self, id: ComponentId) -> (r: &mut R)
        requires
            old(self).resources().contains_key(id),
        ensures
            *r == old(self).resources()[id],
            final(self).resources() == old(self).resources().insert(id, *final(r)),
            final(self).events() == old(self).events(),
            final(self).tracked_events() == old(self).tracked_events(),
            final(self).manager() == old(self).manager(),
            old(self).wf() ==> final(self).wf(),
    {
        map_get_mut(&mut self.resources, &id)
    }

    /// The resource under `id`, if there is one, for writing.
    pub fn get_resource_mut_opt(&mut self, id: ComponentId) -> (r: Option<&mut R>)
        ensures
            match r {
                Some(v) => {
                    &&& old(self).resources().contains_key(id)
                    &&& *v == old(self).resources()[id]
                    &&& final(self).resources() == old(self).resources().insert(id, *final(v))
                },
                None => !old(self).resources().contains_key(id) && final(self).resources() == old(
                    self,
                ).resources(),
            },
            final(self).events() == old(self).events(),
            final(self).tracked_events() == old(self).tracked_events(),
            final(self).manager() == old(self).manager(),
            old(self).wf() ==> final(self).wf(),
    {
        if self.resources.contains_key(&id) {
            Some(map_get_mut(&mut self.resources, &id))
        } else {
            None
        }
    }

    /// Creates the empty buffer of event type `id` and registers it for
    /// clearing at every end of frame; refused when it exists already.
    pub fn init_event(&mut self, id: ComponentId) -> (r: Result<(), WorldError>)
        requires
            old(self).wf(),
        ensures
            final(self).wf(),
            final(self).resources() == old(self).resources(),
            final(self).manager() == old(self).manager(),
            match r {
                Ok(()) => {
                    &&& !old(self).events().contains_key(id)
                    &&& final(self).events().dom() == old(self).events().dom().insert(id)
                    &&& forall|x: ComponentId|
                        x != id && #[trigger] old(self).events().contains_key(x) ==> final(self).events()[x]
                            == old(self).events()[x]
                    &&& final(self).events()[id].readable() == Seq::<E>::empty()
                    &&& final(self).events()[id].pending() == Seq::<E>::empty()
                    &&& final(self).tracked_events() == old(self).tracked_events().push((id, id))
                },
                Err(e) => {
                    &&& old(self).events().contains_key(id)
                    &&& e == WorldError::EventAlreadyInitialized(id)
                    &&& final(self).events() == old(self).events()
                    &&& final(self).tracked_events() == old(self).tracked_events()
                },
            },
    {
        if self.events.contains_key(&id) {
            return Err(WorldError::EventAlreadyInitialized(id));
        }
        let ghost t = self.tracked_events@;
        proof {
            if exists|i: int| 0 <= i < t.len() && (#[trigger] t[i]).0 == id {
                let i = choose|i: int| 0 <= i < t.len() && (#[trigger] t[i]).0 == id;
                assert(t[i].1 == id);
                assert(event_registered(t, id));
            }
        }
        self.events.insert(id, EventBuffer::new());
        self.tracked_events.register_event(id, id);
        proof {
            let t2 = self.tracked_events@;
            assert(t2 == t.push((id, id)));
            assert forall|x: ComponentId| #[trigger] self.events@.contains_key(x) <==> event_registered(t2, x) by {
                if event_registered(t, x) {
                    let i = choose|i: int| 0 <= i < t.len() && (#[trigger] t[i]).1 == x;
                    assert(t2[i].1 == x);
                }
                if event_registered(t2, x) {
                    let i = choose|i: int| 0 <= i < t2.len() && (#[trigger] t2[i]).1 == x;
                    if i < t.len() {
                        assert(t[i].1 == x);
                    }
                }
                if x == id {
                    assert(t2[t.len() as int].1 == x);
                }
            }
        }
        Ok(())
    }

    /// The buffer of event type `id`, if it was initialised.
    pub fn event_buffer(&self, id: ComponentId) -> (r: Option<&EventBuffer<E>>)
        ensures
            match r {
                Some(b) => self.events().contains_key(id) && *b == self.events()[id],
                None => !self.events().contains_key(id),
            },
    {
        self.events.get(&id)
    }

    /// The buffer of event type `id`, if it was initialised, for sending.
    pub fn event_buffer_mut(&mut self, id: ComponentId) -> (r: Option<&mut EventBuffer<E>>)
        ensures
            match r {
                Some(b) => {
                    &&& old(self).events().contains_key(id)
                    &&& *b == old(self).events()[id]
                    &&& final(self).events() == old(self).events().insert(id, *final(b))
                },
                None => !old(self).events().contains_key(id) && final(self).events() == old(
                    self,
                ).events(),
            },
            final(self).resources() == old(self).resources(),
            final(self).tracked_events() == old(self).tracked_events(),
            final(self).manager() == old(self).manager(),
            old(self).wf() ==> final(self).wf(),
    {
        if self.events.contains_key(&id) {
            Some(map_get_mut(&mut self.events, &id))
        } else {
            None
        }
    }

    /// End of frame: the generation advances, the marker slots swap roles,
    /// the new write slot of every addition marker column is cleared and the
    /// change stamps that have gone stale are reset; in every event buffer
    /// the events sent this frame become the readable ones and the readable
    /// ones are dropped. Nothing else changes.
    pub fn end_of_frame_sync(&mut self)
        requires
            old(self).wf(),
        ensures
            final(self).wf(),
            final(self).read_slot() == advanced(old(self).read_slot()),
            final(self).generation() == next_generation(old(self).generation()),
            final(self).manager().spec_index() == old(self).manager().spec_index(),
            final(self).manager().archetypes().len() == old(self).manager().archetypes().len(),
            forall|i: int|
                0 <= i < old(self).manager().archetypes().len() ==> {
                    let a = #[trigger] final(self).manager().archetypes()[i];
                    let b = old(self).manager().archetypes()[i];
                    &&& a.spec_id() == b.spec_id()
                    &&& a.types() == b.types()
                    &&& a.entity_count() == b.entity_count()
                    &&& a.columns() == b.columns()
                    &&& a.names() == b.names()
                    &&& a.marker_columns().len() == b.marker_columns().len()
                    &&& forall|k: int|
                        0 <= k < b.marker_columns().len() ==> #[trigger] cleared_from(
                            a.marker_columns()[k],
                            b.marker_columns()[k],
                            write_slot(advanced(old(self).read_slot())),
                            next_generation(old(self).generation()),
                        )
                },
            final(self).events().dom() == old(self).events().dom(),
            forall|id: ComponentId|
                #[trigger] old(self).events().contains_key(id) ==> {
                    &&& final(self).events()[id].readable() == old(self).events()[id].pending()
                    &&& final(self).events()[id].pending() == Seq::<E>::empty()
                },
            final(self).resources() == old(self).resources(),
            final(self).registry() == old(self).registry(),
            final(self).tracked_events() == old(self).tracked_events(),
            final(self).trackers() == old(self).trackers(),
            final(self).queued() == old(self).queued(),
            final(self).pending_despawns() == old(self).pending_despawns(),
            final(self).free_indices() == old(self).free_indices(),
    {
        self.buffer.advance();
        self.generation = if self.generation >= 255 {
            1
        } else {
            self.generation + 1
        };
        let write_idx = self.buffer.current_write_idx();
        self.archetypes_manager.clear_all_markers(write_idx, self.generation);
        self.clear_events();
    }

    /// Swaps the queues of every registered event buffer.
    fn clear_events(&mut self)
        requires
            old(self).wf(),
        ensures
            final(self).wf(),
            final(self).events().dom() == old(self).events().dom(),
            forall|id: ComponentId|
                #[trigger] old(self).events().contains_key(id) ==> {
                    &&& final(self).events()[id].readable() == old(self).events()[id].pending()
                    &&& final(self).events()[id].pending() == Seq::<E>::empty()
                },
            final(self).archetypes_manager == old(self).archetypes_manager,
            final(self).buffer == old(self).buffer,
            final(self).generation == old(self).generation,
            final(self).resources() == old(self).resources(),
            final(self).registry() == old(self).registry(),
            final(self).tracked_events() == old(self).tracked_events(),
            final(self).trackers() == old(self).trackers(),
            final(self).queued() == old(self).queued(),
            final(self).pending_despawns() == old(self).pending_despawns(),
            final(self).free_indices() == old(self).free_indices(),
    {
        let ghost start = self.events@;
        let ghost t = self.tracked_events@;
        let n = self.tracked_events.len();
        let mut i: usize = 0;
        while i < n
            invariant
                i <= n,
                n == t.len(),
                t == self.tracked_events@,
                old(self).wf(),
                start == old(self).events@,
                t == old(self).tracked_events@,
                self.events@.dom() == start.dom(),
                self.archetypes_manager == old(self).archetypes_manager,
                self.buffer == old(self).buffer,
                self.generation == old(self).generation,
                self.resources == old(self).resources,
                self.registry == old(self).registry,
                self.trackers == old(self).trackers,
                self.queue == old(self).queue,
                self.despawns == old(self).despawns,
                self.free_indices_list == old(self).free_indices_list,
                forall|id: ComponentId|
                    #[trigger] start.contains_key(id) ==> if exists|k: int| 0 <= k < i && (#[trigger] t[k]).1 == id {
                        &&& self.events@[id].readable() == start[id].pending()
                        &&& self.events@[id].pending() == Seq::<E>::empty()
                    } else {
                        self.events@[id] == start[id]
                    },
            decreases n - i,
        {
            let id = self.tracked_events.event_id(i);
            proof {
                assert(event_registered(t, id));
                assert(start.contains_key(id));
                assert forall|k: int| 0 <= k < i implies (#[trigger] t[k]).1 != id by {
                    assert(t[k].0 == t[k].1);
                    assert(t[i as int].0 == t[i as int].1);
                }
            }
            let removed = self.events.remove(&id);
            match removed {
                Some(mut buffer) => {
                    buffer.clear_events();
                    self.events.insert(id, buffer);
                },
                None => {},
            }
            proof {
                assert forall|x: ComponentId| #[trigger] start.contains_key(x) implies if exists|k: int|
                    0 <= k < i + 1 && (#[trigger] t[k]).1 == x {
                    &&& self.events@[x].readable() == start[x].pending()
                    &&& self.events@[x].pending() == Seq::<E>::empty()
                } else {
                    self.events@[x] == start[x]
                } by {
                    if x == id {
                        assert(t[i as int].1 == x);
                        assert(!(exists|k: int| 0 <= k < i && (#[trigger] t[k]).1 == x));
                    } else {
                        if exists|k: int| 0 <= k < i + 1 && (#[trigger] t[k]).1 == x {
                            let k = choose|k: int| 0 <= k < i + 1 && (#[trigger] t[k]).1 == x;
                            assert(k < i);
                        }
                    }
                }
                assert(self.events@.dom() =~= start.dom());
            }
            i += 1;
        }
        proof {
            assert forall|id: ComponentId| #[trigger] start.contains_key(id) implies exists|k: int|
                0 <= k < n && (#[trigger] t[k]).1 == id by {
                assert(event_registered(t, id));
            }
            assert forall|id: ComponentId| #[trigger] self.events@.contains_key(id) <==> event_registered(
                self.tracked_events@,
                id,
            ) by {
                assert(start.contains_key(id) <==> self.events@.contains_key(id));
            }
        }
    }

    /// The entity registry.
    pub fn registry_ref(&self) -> (r: &Registry)
        ensures
            r@ == self.registry(),
    {
        &self.registry
    }

    /// The entity registry, for writing.
    pub fn registry_mut(&mut self) -> (r: &mut Registry)
        ensures
            r@ == old(self).registry(),
            final(self).registry() == final(r)@,
            final(self).pending_despawns() == old(self).pending_despawns(),
            final(self).free_indices() == old(self).free_indices(),
            final(self).resources() == old(self).resources(),
            final(self).events() == old(self).events(),
            old(self).wf() ==> final(self).wf(),
    {
        &mut self.registry
    }

    /// The handle through which systems queue commands and despawns.
    pub fn commands(&mut self) -> (r: Commands<'_, C>)
        requires
            old(self).wf(),
        ensures
            r.wf(),
            r.queued() == old(self).queued(),
            r.pending_despawns() == old(self).pending_despawns(),
    {
        Commands::new(&mut self.queue, &mut self.despawns)
    }

    /// Queues `command` behind the queued ones.
    pub fn push_command(&mut self, command: C)
        requires
            old(self).wf(),
        ensures
            final(self).wf(),
            final(self).queued() == old(self).queued().push(command),
            final(self).pending_despawns() == old(self).pending_despawns(),
            final(self).registry() == old(self).registry(),
            final(self).free_indices() == old(self).free_indices(),
            final(self).resources() == old(self).resources(),
            final(self).events() == old(self).events(),
    {
        self.queue.push(command);
    }

    /// Marks `entity` for despawning; a second mark of the same entity is
    /// dropped, and the handle it came with is given up.
    pub fn despawn(&mut self, entity: Entity)
        requires
            old(self).wf(),
        ensures
            final(self).wf(),
            final(self).pending_despawns() == if old(self).pending_despawns().contains(entity.index()) {
                old(self).pending_despawns()
            } else {
                old(self).pending_despawns().push(entity.index())
            },
            final(self).queued() == old(self).queued(),
            final(self).manager() == old(self).manager(),
            final(self).read_slot() == old(self).read_slot(),
            final(self).registry() == if old(self).pending_despawns().contains(entity.index()) && (entity.index() as int)
                < old(self).registry().len() {
                with_count(
                    old(self).registry(),
                    entity.index() as int,
                    wrapping_sub(old(self).registry()[entity.index() as int].handle_count, 1),
                )
            } else {
                old(self).registry()
            },
            final(self).free_indices() == old(self).free_indices(),
            final(self).resources() == old(self).resources(),
            final(self).events() == old(self).events(),
    {
        if self.despawns.will_despawn(&entity) {
            if (entity.registry_idx() as usize) < self.registry.len() {
                self.registry.release_entity(entity);
            }
        } else {
            self.despawns.insert(entity);
        }
    }

    /// Whether a despawn of `entity` is pending.
    pub fn will_despawn(&self, entity: &Entity) -> (r: bool)
        ensures
            r == self.pending_despawns().contains(entity.index()),
    {
        self.despawns.will_despawn(entity)
    }

    /// Hands out the queued commands, oldest first, for applying in that
    /// order; the queue is left empty.
    pub fn take_queued_commands(&mut self) -> (r: Vec<C>)
        requires
            old(self).wf(),
        ensures
            final(self).wf(),
            r@ == old(self).queued(),
            final(self).queued() == Seq::<C>::empty(),
            final(self).pending_despawns() == old(self).pending_despawns(),
            final(self).registry() == old(self).registry(),
            final(self).free_indices() == old(self).free_indices(),
            final(self).resources() == old(self).resources(),
            final(self).events() == old(self).events(),
    {
        self.queue.take_all()
    }

    /// Applies the pending despawns: every target gives up its handle; if
    /// a target still has handles after that, the first such target in
    /// despawn order is reported, with the names of its archetype's kinds,
    /// and nothing else happens; otherwise each target, in order, loses its
    /// archetype row (the archetype's last row moving into its place) and
    /// its registry position joins the free list, which is then sorted
    /// largest first. Targets without a registry cell are ignored. The
    /// pending set is empty afterwards either way.
    pub fn apply_despawns(&mut self) -> (r: Result<(), WorldError>)
        requires
            old(self).wf(),
        ensures
            final(self).wf(),
            final(self).pending_despawns() == Seq::<u32>::empty(),
            final(self).resources() == old(self).resources(),
            final(self).events() == old(self).events(),
            final(self).queued() == old(self).queued(),
            final(self).manager().spec_index() == old(self).manager().spec_index(),
            final(self).manager().archetypes().len() == old(self).manager().archetypes().len(),
            match r {
                Ok(_) => {
                    &&& forall|k: int|
                        0 <= k < old(self).pending_despawns().len() ==> !alive(
                            released(old(self).registry(), old(self).pending_despawns()),
                            #[trigger] old(self).pending_despawns()[k],
                        )
                    &&& (rows_of(final(self).manager()), final(self).registry()) == despawn_all(
                        rows_of(old(self).manager()),
                        released(old(self).registry(), old(self).pending_despawns()),
                        old(self).pending_despawns(),
                    )
                    &&& sorted_descending(final(self).free_indices())
                    &&& final(self).free_indices().to_multiset() == (old(self).free_indices() + in_range(
                        old(self).registry(),
                        old(self).pending_despawns(),
                    )).to_multiset()
                },
                Err(e) => {
                    &&& final(self).registry() == released(old(self).registry(), old(self).pending_despawns())
                    &&& final(self).manager() == old(self).manager()
                    &&& exists|k: int|
                        {
                            &&& #[trigger] first_alive(final(self).registry(), old(self).pending_despawns(), k)
                            &&& e matches WorldError::HandlesAlive { entity, archetype, handles, kinds }
                            &&& entity == old(self).pending_despawns()[k]
                            &&& archetype == final(self).registry()[entity as int].archetype_id
                            &&& handles == final(self).registry()[entity as int].handle_count
                            &&& kinds@ == if (archetype.0 as int) < old(self).manager().archetypes().len() {
                                old(self).manager().archetypes()[archetype.0 as int].names()
                            } else {
                                Seq::<&'static str>::empty()
                            }
                        }
                    &&& final(self).free_indices() == old(self).free_indices()
                },
            },
    {
        let ghost cells = self.registry@;
        let targets = self.despawns.take_all();
        let ghost ids = despawn_indices(targets@);
        let n = targets.len();
        let mut i: usize = 0;
        while i < n
            invariant
                i <= n,
                n == ids.len(),
                ids == despawn_indices(targets@),
                ids.no_duplicates(),
                cells.len() == self.registry@.len(),
                cells == old(self).registry@,
                ids == old(self).despawns.indices(),
                self.free_indices_list == old(self).free_indices_list,
                self.archetypes_manager == old(self).archetypes_manager,
                self.resources == old(self).resources,
                self.events == old(self).events,
                self.tracked_events == old(self).tracked_events,
                self.trackers == old(self).trackers,
                self.buffer == old(self).buffer,
                self.generation == old(self).generation,
                self.queue == old(self).queue,
                self.despawns.wf(),
                self.despawns.indices() == Seq::<u32>::empty(),
                old(self).wf(),

                self.registry@ == released(cells, ids.subrange(0, i as int)),
            decreases n - i,
        {
            let t = targets[i].entity.registry_idx();
            let ghost before = self.registry@;
            if (t as usize) < self.registry.len() {
                self.registry.decrement_handle(t as usize);
            }
            proof {
                let p0 = ids.subrange(0, i as int);
                let p1 = ids.subrange(0, i as int + 1);
                assert(ids[i as int] == t);
                assert forall|j: int| 0 <= j < cells.len() implies #[trigger] self.registry@[j] == released(cells, p1)[j] by {
                    assert(targeted(p1, j) <==> (targeted(p0, j) || t as int == j)) by {
                        if targeted(p1, j) {
                            let k = choose|k: int| 0 <= k < p1.len() && (#[trigger] p1[k]) as int == j;
                            if k < i {
                                assert(p0[k] == p1[k]);
                            }
                        }
                        if targeted(p0, j) {
                            let k = choose|k: int| 0 <= k < p0.len() && (#[trigger] p0[k]) as int == j;
                            assert(p1[k] == p0[k]);
                        }
                        if t as int == j {
                            assert(p1[i as int] == t);
                        }
                    }
                    if t as int == j {
                        assert(!targeted(p0, j)) by {
                            if targeted(p0, j) {
                                let k = choose|k: int| 0 <= k < p0.len() && (#[trigger] p0[k]) as int == j;
                                assert(ids[k] == ids[i as int]);
                            }
                        }
                    }
                }
                assert(self.registry@ =~= released(cells, p1));
            }
            i += 1;
        }
        assert(ids.subrange(0, n as int) == ids);
        let ghost after = self.registry@;
        let mut k: usize = 0;
        while k < n
            invariant
                k <= n,
                n == ids.len(),
                ids == despawn_indices(targets@),
                after == self.registry@,
                after == released(cells, ids),
                cells == old(self).registry@,
                ids == old(self).despawns.indices(),
                forall|j: int| 0 <= j < k ==> !alive(after, #[trigger] ids[j]),
                self.free_indices_list == old(self).free_indices_list,
                self.archetypes_manager == old(self).archetypes_manager,
                self.resources == old(self).resources,
                self.events == old(self).events,
                self.tracked_events == old(self).tracked_events,
                self.trackers == old(self).trackers,
                self.buffer == old(self).buffer,
                self.generation == old(self).generation,
                self.queue == old(self).queue,
                self.despawns.wf(),
                self.despawns.indices() == Seq::<u32>::empty(),
                old(self).wf(),

            decreases n - k,
        {
            let t = targets[k].entity.registry_idx();
            if (t as usize) < self.registry.len() {
                let cell = self.registry.get(t as usize);
                if cell.handle_count != 0 {
                    let kinds = match self.archetypes_manager.get(cell.archetype_id) {
                        Some(a) => a.names_vec(),
                        None => Vec::new(),
                    };
                    let err = WorldError::HandlesAlive {
                        entity: t,
                        archetype: cell.archetype_id,
                        handles: cell.handle_count,
                        kinds,
                    };
                    proof {
                        let pd = old(self).despawns.indices();
                        assert(ids[k as int] == t);
                        assert(after[t as int] == cell);
                        assert(first_alive(self.registry@, pd, k as int));
                        assert(first_alive(self.registry(), old(self).pending_despawns(), k as int));
                    }
                    return Err(err);
                }
            }
            k += 1;
        }
        let ghost free0 = self.free_indices_list@;
        let ghost rows0 = rows_of(self.archetypes_manager);
        assert(ids.subrange(0, 0) =~= Seq::<u32>::empty());
        let mut m: usize = 0;
        while m < n
            invariant
                m <= n,
                n == ids.len(),
                ids == despawn_indices(targets@),
                ids == old(self).despawns.indices(),
                after == released(cells, ids),
                cells == old(self).registry@,
                cells.len() == after.len(),
                self.registry@.len() == cells.len(),
                rows0 == rows_of(old(self).archetypes_manager),
                (rows_of(self.archetypes_manager), self.registry@) == despawn_all(rows0, after, ids.subrange(0, m as int)),
                self.archetypes_manager.wf(),
                self.archetypes_manager.spec_index() == old(self).archetypes_manager.spec_index(),
                self.archetypes_manager.archetypes().len() == old(self).archetypes_manager.archetypes().len(),
                self.free_indices_list@ == free0 + in_range(cells, ids.subrange(0, m as int)),
                self.resources == old(self).resources,
                self.events == old(self).events,
                self.tracked_events == old(self).tracked_events,
                self.trackers == old(self).trackers,
                self.buffer == old(self).buffer,
                self.generation == old(self).generation,
                self.queue == old(self).queue,
                self.despawns.wf(),
                self.despawns.indices() == Seq::<u32>::empty(),
                old(self).wf(),
            decreases n - m,
        {
            let t = targets[m].entity.registry_idx();
            let ghost rows_before = rows_of(self.archetypes_manager);
            let ghost cells_before = self.registry@;
            proof {
                assert(ids.subrange(0, m as int + 1).drop_last() == ids.subrange(0, m as int));
                reveal(Seq::filter);
                assert(ids[m as int] == t);
            }
            if (t as usize) < self.registry.len() {
                let cell = self.registry.get(t as usize);
                let a = cell.archetype_id.0 as usize;
                if a < self.archetypes_manager.len() {
                    proof {
                        self.archetypes_manager.archetypes()[a as int].lemma_count_is_handles();
                    }
                    if (cell.idx as usize) < self.archetypes_manager.at(a).len() {
                        let moved = self.archetypes_manager.swap_remove_row(cell.archetype_id, cell.idx as usize, true);
                        proof {
                            let h = rows_before[a as int];
                            assert(rows_of(self.archetypes_manager) =~= rows_before.update(a as int, swap_removed(h, cell.idx as int)));
                        }
                        match moved {
                            Some(mv) => {
                                if (mv as usize) < self.registry.len() {
                                    self.registry.set_location(mv as usize, cell.archetype_id, cell.idx);
                                }
                            },
                            None => {},
                        }
                    } else {
                        proof {
                            assert(rows_of(self.archetypes_manager) == rows_before);
                        }
                    }
                }
                self.free_indices_list.push(t);
            }
            proof {
                assert(ids.subrange(0, m as int + 1).drop_last() =~= ids.subrange(0, m as int));
                assert(ids.subrange(0, m as int + 1).last() == t);
            }
            m += 1;
        }
        assert(ids.subrange(0, n as int) =~= ids);
        sort_descending(&mut self.free_indices_list);
        Ok(())
    }

    /// Creates the archetype of the kinds `bundle`, with the markers of the
    /// tracked components among them, unless it exists already.
    pub fn pre_allocate_archetype(&mut self, bundle: &[ComponentId], names: Vec<&'static str>) -> (r: ArchetypeId)
        requires
            old(self).wf(),
            old(self).manager().archetypes().len() < u32::MAX,
        ensures
            final(self).wf(),
            (r, final(self).manager().spec_index()) == lookup_or_create(
                old(self).manager().spec_index(),
                old(self).manager().archetypes().len(),
                set_hash(synced(bundle@.to_set(), old(self).trackers(), old(self).trackers().len() as int)),
            ),
            (r.0 as int) < final(self).manager().archetypes().len(),
            final(self).manager().archetypes().len() == if (r.0 as int) < old(self).manager().archetypes().len() {
                old(self).manager().archetypes().len()
            } else {
                old(self).manager().archetypes().len() + 1
            },
            forall|j: int|
                0 <= j < old(self).manager().archetypes().len() ==> #[trigger] final(self).manager().archetypes()[j]
                    == old(self).manager().archetypes()[j],
            (r.0 as int) < old(self).manager().archetypes().len() || {
                let a = final(self).manager().archetypes()[r.0 as int];
                &&& a.entity_count() == 0
                &&& column_ids(a.columns()).to_set() == bundle@.to_set()
                &&& forall|k: int| 0 <= k < a.columns().len() ==> (#[trigger] a.columns()[k]).values().len() == 0
            },
            final(self).read_slot() == old(self).read_slot(),
            final(self).trackers() == old(self).trackers(),
            final(self).registry() == old(self).registry(),
            final(self).resources() == old(self).resources(),
            final(self).events() == old(self).events(),
            final(self).queued() == old(self).queued(),
            final(self).pending_despawns() == old(self).pending_despawns(),
            final(self).free_indices() == old(self).free_indices(),
    {
        let ghost h = set_hash(synced(bundle@.to_set(), self.trackers@, self.trackers@.len() as int));
        proof {
            self.archetypes_manager.lemma_index_in_range(h);
        }
                self.archetypes_manager.get_or_create_from_generic(bundle, names, &self.trackers)
    }

    /// The query over `data` with `filter`, as the system described by
    /// `reader` sees the markers in this frame.
    pub fn query<F: QueryFilter>(&self, data: &[ComponentId], filter: &F, reader: &FunctionGenerationData) -> (r: Query)
        requires
            self.wf(),
        ensures
            r.wf(),
            r.matches().len() == self.manager().archetypes().len(),
            forall|i: int|
                0 <= i < self.manager().archetypes().len() ==> #[trigger] r.matches()[i] == archetype_matches(
                    self.manager().archetypes()[i],
                    data@,
                    *filter,
                ),
            forall|i: int|
                0 <= i < self.manager().archetypes().len() ==> #[trigger] r.rows()[i] == if r.matches()[i] {
                    filter.spec_filter_rows(
                        self.manager().archetypes()[i].marker_columns(),
                        all_rows(self.manager().archetypes()[i].entity_count()),
                        self.context_for(reader.last_run_generation, reader.system_id),
                    )
                } else {
                    Seq::<usize>::empty()
                },
    {
        let ctx = self.read_context(reader);
        Query::new(&self.archetypes_manager, data, filter, &ctx)
    }

    /// What the system described by `reader` brings to a query in this
    /// frame.
    pub fn read_context(&self, reader: &FunctionGenerationData) -> (r: ReadContext)
        requires
            self.wf(),
        ensures
            r == self.context_for(reader.last_run_generation, reader.system_id),
            r.read_slot < 2,
    {
        ReadContext {
            read_slot: self.buffer.current_read_idx(),
            generation: self.generation,
            last_run: reader.last_run_generation,
            system_id: reader.system_id,
        }
    }

    /// The current generation.
    pub fn current_generation(&self) -> (r: u8)
        ensures
            r == self.generation(),
    {
        self.generation
    }

    /// What a query over `reads` and `writes` with `filter` accesses; the
    /// components whose markers the filter reads become tracked.
    pub fn query_access<F: QueryFilter>(&mut self, reads: &[ComponentId], writes: &[ComponentId], filter: &F) -> (r: ParamAccess)
        requires
            old(self).wf(),
        ensures
            final(self).wf(),
            r.reads@ == reads@,
            r.writes@ == writes@,
            r.with_filters@ == filter.spec_withs(),
            r.without_filters@ == filter.spec_withouts(),
            r.res_reads@.len() == 0,
            r.res_writes@.len() == 0,
            final(self).trackers() == filter.spec_register(old(self).trackers()),
            final(self).manager() == old(self).manager(),
            final(self).registry() == old(self).registry(),
            final(self).resources() == old(self).resources(),
            final(self).events() == old(self).events(),
    {
        Query::get_access(reads, writes, filter, &mut self.trackers)
    }

    /// A shared resource parameter for `id`, if the resource exists.
    pub fn res_opt(&self, id: ComponentId) -> (r: Option<Res<'_, R>>)
        ensures
            match r {
                Some(v) => self.resources().contains_key(id) && v.value() == self.resources()[id],
                None => !self.resources().contains_key(id),
            },
    {
        match self.get_resource_opt(id) {
            Some(v) => Some(Res::new(v)),
            None => None,
        }
    }

    /// A shared resource parameter for `id`, which must exist.
    pub fn res(&self, id: ComponentId) -> (r: Res<'_, R>)
        requires
            self.resources().contains_key(id),
        ensures
            r.value() == self.resources()[id],
    {
        Res::new(self.get_resource(id))
    }

    /// The row bookkeeping of a new entity in archetype `id`, with addition
    /// markers set in this frame's write slot.
    pub fn push_entity_row(&mut self, id: ArchetypeId, entity: Entity)
        requires
            old(self).wf(),
            (id.0 as int) < old(self).manager().archetypes().len(),
        ensures
            final(self).wf(),
            final(self).manager().spec_index() == old(self).manager().spec_index(),
            final(self).manager().archetypes().len() == old(self).manager().archetypes().len(),
            forall|j: int|
                0 <= j < old(self).manager().archetypes().len() && j != id.0 as int
                    ==> #[trigger] final(self).manager().archetypes()[j] == old(self).manager().archetypes()[j],
            ({
                let a = final(self).manager().archetypes()[id.0 as int];
                let b = old(self).manager().archetypes()[id.0 as int];
                &&& a.spec_id() == b.spec_id()
                &&& a.types() == b.types()
                &&& a.entity_count() == b.entity_count() + 1
                &&& a.entity_handles() == b.entity_handles().push(entity.index())
                &&& a.columns() == b.columns()
                &&& a.names() == b.names()
                &&& a.marker_columns().len() == b.marker_columns().len()
                &&& forall|k: int|
                    0 <= k < b.marker_columns().len() ==> {
                        let x = #[trigger] a.marker_columns()[k];
                        let y = b.marker_columns()[k];
                        &&& x.spec_marker_id() == y.spec_marker_id()
                        &&& x.spec_kind() == y.spec_kind()
                        &&& x.rows() == y.rows().push(
                            if y.spec_kind() == crate::reactivity::MarkerKind::Added {
                                seq![false, false].update(write_slot(old(self).read_slot()) as int, true)
                            } else {
                                seq![false, false]
                            },
                        )
                    }
            }),
            final(self).read_slot() == old(self).read_slot(),
            final(self).registry() == old(self).registry(),
            final(self).resources() == old(self).resources(),
            final(self).events() == old(self).events(),
            final(self).queued() == old(self).queued(),
            final(self).pending_despawns() == old(self).pending_despawns(),
            final(self).free_indices() == old(self).free_indices(),
            final(self).trackers() == old(self).trackers(),
    {
        let write_idx = self.buffer.current_write_idx();
        self.archetypes_manager.push_entity(id, entity, write_idx);
    }

    /// Records a write by system `author` to row `row` of archetype `id`:
    /// marker column `k`, if it is a change marker, is stamped with the
    /// current generation and `author`.
    pub fn mark_changed(&mut self, id: ArchetypeId, k: usize, row: usize, author: u32)
        requires
            old(self).wf(),
            (id.0 as int) < old(self).manager().archetypes().len(),
            k < old(self).manager().archetypes()[id.0 as int].marker_columns().len(),
            row < old(self).manager().archetypes()[id.0 as int].marker_columns()[k as int].rows().len(),
        ensures
            final(self).wf(),
            final(self).manager().spec_index() == old(self).manager().spec_index(),
            final(self).manager().archetypes().len() == old(self).manager().archetypes().len(),
            forall|j: int|
                0 <= j < old(self).manager().archetypes().len() && j != id.0 as int
                    ==> #[trigger] final(self).manager().archetypes()[j] == old(self).manager().archetypes()[j],
            ({
                let a = final(self).manager().archetypes()[id.0 as int];
                let b = old(self).manager().archetypes()[id.0 as int];
                &&& a.spec_id() == b.spec_id()
                &&& a.types() == b.types()
                &&& a.entity_count() == b.entity_count()
                &&& a.marker_columns().len() == b.marker_columns().len()
                &&& forall|j: int|
                    0 <= j < b.marker_columns().len() && j != k ==> #[trigger] a.marker_columns()[j]
                        == b.marker_columns()[j]
                &&& a.marker_columns()[k as int].spec_marker_id() == b.marker_columns()[k as int].spec_marker_id()
                &&& a.marker_columns()[k as int].spec_kind() == b.marker_columns()[k as int].spec_kind()
                &&& a.marker_columns()[k as int].rows() == b.marker_columns()[k as int].rows()
                &&& a.marker_columns()[k as int].stamps() == if b.marker_columns()[k as int].spec_kind()
                    == crate::reactivity::MarkerKind::Changed {
                    b.marker_columns()[k as int].stamps().update(row as int, (old(self).generation(), author))
                } else {
                    b.marker_columns()[k as int].stamps()
                }
            }),
            final(self).read_slot() == old(self).read_slot(),
            final(self).generation() == old(self).generation(),
            final(self).registry() == old(self).registry(),
            final(self).resources() == old(self).resources(),
            final(self).events() == old(self).events(),
            final(self).queued() == old(self).queued(),
            final(self).pending_despawns() == old(self).pending_despawns(),
            final(self).free_indices() == old(self).free_indices(),
            final(self).trackers() == old(self).trackers(),
    {
        self.archetypes_manager.stamp_row(id, k, row, self.generation, author);
    }

    /// The archetype storage.
    pub fn archetypes(&self) -> (r: &ArchetypeManager<V>)
        ensures
            *r == self.manager(),
    {
        &self.archetypes_manager
    }

    /// The registry positions free for reuse.
    pub fn free_indices_slice(&self) -> (r: &[u32])
        ensures
            r@ == self.free_indices(),
    {
        self.free_indices_list.as_slice()
    }

    /// The marker slot that queries read this frame.
    pub fn current_read_idx(&self) -> (r: u8)
        ensures
            r == self.read_slot(),
    {
        self.buffer.current_read_idx()
    }

    /// An exclusive resource parameter for `id`, which must exist; what is
    /// written through it is what the world holds under `id` afterwards.
    pub fn res_mut(&mut self, id: ComponentId) -> (r: ResMut<'_, R>)
        requires
            old(self).resources().contains_key(id),
        ensures
            r.value() == old(self).resources()[id],
            final(self).resources() == old(self).resources().insert(id, *final(r.val)),
            final(self).events() == old(self).events(),
            final(self).manager() == old(self).manager(),
            old(self).wf() ==> final(self).wf(),
    {
        ResMut::new(self.get_resource_mut(id))
    }

    /// Moves `entity` to the archetype of exactly the kinds `kinds`, which
    /// is found or created, and stores there the bundle `added`/`values`
    /// (components gained or replaced). An entity already in that archetype
    /// stays in its row, whose values of the bundle's kinds are replaced.
    /// Otherwise its row leaves its old archetype, the last row there moving
    /// into its place; its values of kinds outside the bundle move with it
    /// (those of kinds the new archetype lacks are dropped), the bundle's
    /// values are added, and the row is appended to the new archetype, where
    /// the addition markers mark it as new in this frame. This is how an
    /// entity gains or loses component kinds.
    pub fn move_entity(
        &mut self,
        entity: &Entity,
        kinds: &[ComponentId],
        names: Vec<&'static str>,
        added: &[ComponentId],
        values: Vec<V>,
    ) -> (r: ArchetypeId)
        requires
            old(self).wf(),
            (entity.index() as int) < old(self).registry().len(),
            old(self).manager().archetypes().len() < u32::MAX,
            forall|i: int|
                0 <= i < old(self).manager().archetypes().len() ==> (#[trigger] old(self).manager().archetypes()[i]).entity_count()
                    < u32::MAX,
            added@.no_duplicates(),
            values@.len() == added@.len(),
        ensures
            final(self).wf(),
            (r, final(self).manager().spec_index()) == lookup_or_create(
                old(self).manager().spec_index(),
                old(self).manager().archetypes().len(),
                set_hash(synced(kinds@.to_set(), old(self).trackers(), old(self).trackers().len() as int)),
            ),
            ({
                let cell = old(self).registry()[entity.index() as int];
                let row = cell.idx as int;
                let located = row_exists(old(self).manager(), cell);
                let src_cols = if located {
                    old(self).manager().archetypes()[cell.archetype_id.0 as int].columns()
                } else {
                    Seq::<ComponentColumn<V>>::empty()
                };
                let t = final(self).manager().archetypes()[r.0 as int];
                if located && cell.archetype_id == r {
                    let b = old(self).manager().archetypes()[r.0 as int];
                    &&& rows_of(final(self).manager()) == rows_of(old(self).manager())
                    &&& final(self).registry() == old(self).registry()
                    &&& forall|j: int|
                        0 <= j < old(self).manager().archetypes().len() && j != r.0 as int
                            ==> #[trigger] final(self).manager().archetypes()[j] == old(self).manager().archetypes()[j]
                    &&& t.columns().len() == b.columns().len()
                    &&& forall|k: int|
                        0 <= k < b.columns().len() ==> {
                            &&& (#[trigger] t.columns()[k]).spec_component() == b.columns()[k].spec_component()
                            &&& t.columns()[k].values() == replaced_seq(
                                b.columns()[k].values(),
                                b.columns()[k].spec_component(),
                                row,
                                added@,
                                values@,
                            )
                        }
                } else {
                    let grown = if (r.0 as int) < old(self).manager().archetypes().len() {
                        rows_of(old(self).manager())
                    } else {
                        rows_of(old(self).manager()).push(Seq::<u32>::empty())
                    };
                    &&& (rows_of(final(self).manager()), final(self).registry()) == move_step(
                        grown,
                        old(self).registry(),
                        entity.index(),
                        r,
                    )
                    &&& located ==> {
                        let a = final(self).manager().archetypes()[cell.archetype_id.0 as int];
                        let b = old(self).manager().archetypes()[cell.archetype_id.0 as int];
                        &&& a.columns().len() == b.columns().len()
                        &&& forall|k: int|
                            0 <= k < b.columns().len() ==> {
                                &&& (#[trigger] a.columns()[k]).spec_component() == b.columns()[k].spec_component()
                                &&& a.columns()[k].values() == if row < b.columns()[k].values().len() {
                                    swap_removed(b.columns()[k].values(), row)
                                } else {
                                    b.columns()[k].values()
                                }
                            }
                    }
                    &&& if (r.0 as int) < old(self).manager().archetypes().len() {
                        let b = old(self).manager().archetypes()[r.0 as int];
                        &&& t.columns().len() == b.columns().len()
                        &&& forall|k: int|
                            0 <= k < b.columns().len() ==> {
                                let c = b.columns()[k].spec_component();
                                &&& (#[trigger] t.columns()[k]).spec_component() == c
                                &&& t.columns()[k].values() == bundle_seq(
                                    carried_seq(b.columns()[k].values(), c, src_cols, row, added@),
                                    c,
                                    added@,
                                    values@,
                                )
                            }
                    } else {
                        &&& column_ids(t.columns()).to_set() == kinds@.to_set()
                        &&& forall|k: int|
                            0 <= k < t.columns().len() ==> {
                                let c = t.columns()[k].spec_component();
                                #[trigger] t.columns()[k].values() == bundle_seq(
                                    carried_seq(Seq::<V>::empty(), c, src_cols, row, added@),
                                    c,
                                    added@,
                                    values@,
                                )
                            }
                    }
                }
            }),
            final(self).resources() == old(self).resources(),
            final(self).events() == old(self).events(),
            final(self).queued() == old(self).queued(),
            final(self).pending_despawns() == old(self).pending_despawns(),
            final(self).free_indices() == old(self).free_indices(),
    {
        let t = entity.registry_idx();
        let ghost rows0 = rows_of(self.archetypes_manager);
        let ghost n0 = self.archetypes_manager.archetypes().len();
        let ghost m0 = self.archetypes_manager;
        let id = self.pre_allocate_archetype(kinds, names);
        let ghost grown = if (id.0 as int) < n0 {
            rows0
        } else {
            rows0.push(Seq::<u32>::empty())
        };
        let ghost m1 = self.archetypes_manager;
        proof {
            let m = self.archetypes_manager;
            assert forall|j: int| 0 <= j < m.archetypes().len() implies #[trigger] rows_of(m)[j] == grown[j] by {
                if j >= n0 {
                    assert(j == id.0 as int);
                    m.archetypes()[j].lemma_count_is_handles();
                    assert(m.archetypes()[j].entity_handles() =~= Seq::<u32>::empty());
                }
            }
            assert(rows_of(self.archetypes_manager) =~= grown);
        }
        let ghost cells0 = self.registry@;
        let cell = self.registry.get(t as usize);
        let a = cell.archetype_id.0 as usize;
        let row = cell.idx as usize;
        let located = a < self.archetypes_manager.len() && row < self.archetypes_manager.at(a).len();
        proof {
            if located {
                assert(self.archetypes_manager.archetypes()[a as int] == m0.archetypes()[a as int]);
            }
            assert(located == row_exists(m0, cell));
            assert(grown.len() == m1.archetypes().len());
            if (a as int) < grown.len() {
                assert(grown[a as int] == rows_of(m1)[a as int]);
                m1.archetypes()[a as int].lemma_count_is_handles();
            }
            assert(located == ((a as int) < grown.len() && (row as int) < grown[a as int].len()));
        }
        if located && a == id.0 as usize {
            proof {
                assert(cell.archetype_id == id);
                assert((id.0 as int) < n0);
            }
            self.set_bundle(id, row, added, values);
            proof {
                let m = self.archetypes_manager;
                assert forall|j: int| 0 <= j < m.archetypes().len() implies #[trigger] rows_of(m)[j] == rows0[j] by {
                    if j != id.0 as int {
                        assert(m.archetypes()[j] == m0.archetypes()[j]);
                    }
                }
                assert(rows_of(self.archetypes_manager) =~= rows0);
            }
            return id;
        }
        let ghost src_cols = if located {
            m0.archetypes()[a as int].columns()
        } else {
            Seq::<ComponentColumn<V>>::empty()
        };
        if located {
            proof {
                self.archetypes_manager.archetypes()[a as int].lemma_count_is_handles();
            }
            self.carry_row(cell.archetype_id, row, id, added);
            proof {
                assert(rows_of(self.archetypes_manager) =~= grown);
            }
            let moved = self.archetypes_manager.swap_remove_row(cell.archetype_id, row, false);
            proof {
                assert(rows_of(self.archetypes_manager) =~= grown.update(a as int, swap_removed(grown[a as int], cell.idx as int)));
            }
            match moved {
                Some(mv) => {
                    if (mv as usize) < self.registry.len() {
                        self.registry.set_location(mv as usize, cell.archetype_id, cell.idx);
                    }
                },
                None => {},
            }
        } else {
            proof {
                let m = self.archetypes_manager;
                assert forall|k: int| 0 <= k < m.archetypes()[id.0 as int].columns().len() implies
                    #[trigger] m.archetypes()[id.0 as int].columns()[k].values() == carried_seq(
                        m.archetypes()[id.0 as int].columns()[k].values(),
                        m.archetypes()[id.0 as int].columns()[k].spec_component(),
                        src_cols,
                        row as int,
                        added@,
                    ) by {
                    assert(column_ids(src_cols) =~= Seq::<ComponentId>::empty());
                }
            }
        }
        let ghost p = despawn_step(grown, cells0, t);
        assert(rows_of(self.archetypes_manager) == p.0 && self.registry@ == p.1);
        proof {
            self.archetypes_manager.archetypes()[id.0 as int].lemma_count_is_handles();
        }
        let new_row = self.archetypes_manager.at(id.0 as usize).len();
        self.registry.set_location(t as usize, id, new_row as u32);
        let ghost before_push = rows_of(self.archetypes_manager);
        self.push_entity_row(id, Entity::new(t));
        proof {
            assert(rows_of(self.archetypes_manager) =~= before_push.update(id.0 as int, before_push[id.0 as int].push(t)));
        }
        let ghost rows2 = rows_of(self.archetypes_manager);
        let ghost m3 = self.archetypes_manager;
        self.push_bundle(id, added, values);
        proof {
            assert(rows_of(self.archetypes_manager) =~= rows2);
            if (id.0 as int) >= n0 {
                let fa = m1.archetypes()[id.0 as int];
                let pa = m3.archetypes()[id.0 as int];
                let ta = self.archetypes_manager.archetypes()[id.0 as int];
                assert forall|k: int| 0 <= k < ta.columns().len() implies {
                    &&& #[trigger] column_ids(ta.columns())[k] == column_ids(fa.columns())[k]
                    &&& ta.columns()[k].values() == bundle_seq(
                        carried_seq(Seq::<V>::empty(), ta.columns()[k].spec_component(), src_cols, row as int, added@),
                        ta.columns()[k].spec_component(),
                        added@,
                        values@,
                    )
                } by {
                    assert(fa.columns()[k].values() =~= Seq::<V>::empty());
                    assert(pa.columns()[k].spec_component() == fa.columns()[k].spec_component());
                    assert(pa.columns()[k].values() == carried_seq(
                        fa.columns()[k].values(),
                        fa.columns()[k].spec_component(),
                        src_cols,
                        row as int,
                        added@,
                    ));
                }
                assert(column_ids(ta.columns()) =~= column_ids(fa.columns()));
            }
        }
        id
    }

    /// Each event type is registered once, under its own number, and has a
    /// buffer exactly when it is registered.
    pub proof fn lemma_events_registered_once(&self)
        requires
            self.wf(),
        ensures
            forall|i: int|
                0 <= i < self.tracked_events().len() ==> (#[trigger] self.tracked_events()[i]).0
                    == self.tracked_events()[i].1,
            forall|i: int, j: int|
                0 <= i < j < self.tracked_events().len() ==> (#[trigger] self.tracked_events()[i]).0
                    != (#[trigger] self.tracked_events()[j]).0,
            forall|id: ComponentId|
                #[trigger] self.events().contains_key(id) <==> event_registered(self.tracked_events(), id),
    {
    }

    /// Takes the values of row `row` out of archetype `src` (each column
    /// long enough losing that row, its last value moving into its place)
    /// and appends each to the column of the same kind in archetype `dst`,
    /// unless the kind is among `added` or `dst` has no such column.
    fn carry_row(&mut self, src: ArchetypeId, row: usize, dst: ArchetypeId, added: &[ComponentId])
        requires
            old(self).wf(),
            (src.0 as int) < old(self).manager().archetypes().len(),
            (dst.0 as int) < old(self).manager().archetypes().len(),
            src != dst,
        ensures
            final(self).wf(),
            final(self).manager().spec_index() == old(self).manager().spec_index(),
            final(self).manager().archetypes().len() == old(self).manager().archetypes().len(),
            forall|j: int|
                0 <= j < old(self).manager().archetypes().len() && j != src.0 as int && j != dst.0 as int
                    ==> #[trigger] final(self).manager().archetypes()[j] == old(self).manager().archetypes()[j],
            ({
                let a = final(self).manager().archetypes()[src.0 as int];
                let b = old(self).manager().archetypes()[src.0 as int];
                &&& a.spec_id() == b.spec_id()
                &&& a.types() == b.types()
                &&& a.entity_count() == b.entity_count()
                &&& a.entity_handles() == b.entity_handles()
                &&& a.marker_columns() == b.marker_columns()
                &&& a.names() == b.names()
                &&& a.columns().len() == b.columns().len()
                &&& forall|k: int|
                    0 <= k < b.columns().len() ==> {
                        &&& (#[trigger] a.columns()[k]).spec_component() == b.columns()[k].spec_component()
                        &&& a.columns()[k].values() == if (row as int) < b.columns()[k].values().len() {
                            swap_removed(b.columns()[k].values(), row as int)
                        } else {
                            b.columns()[k].values()
                        }
                    }
            }),
            ({
                let a = final(self).manager().archetypes()[dst.0 as int];
                let b = old(self).manager().archetypes()[dst.0 as int];
                let s0 = old(self).manager().archetypes()[src.0 as int].columns();
                &&& a.spec_id() == b.spec_id()
                &&& a.types() == b.types()
                &&& a.entity_count() == b.entity_count()
                &&& a.entity_handles() == b.entity_handles()
                &&& a.marker_columns() == b.marker_columns()
                &&& a.names() == b.names()
                &&& a.columns().len() == b.columns().len()
                &&& forall|k: int|
                    0 <= k < b.columns().len() ==> {
                        &&& (#[trigger] a.columns()[k]).spec_component() == b.columns()[k].spec_component()
                        &&& a.columns()[k].values() == carried_seq(
                            b.columns()[k].values(),
                            b.columns()[k].spec_component(),
                            s0,
                            row as int,
                            added@,
                        )
                    }
            }),
            final(self).registry() == old(self).registry(),
            final(self).resources() == old(self).resources(),
            final(self).events() == old(self).events(),
            final(self).queued() == old(self).queued(),
            final(self).pending_despawns() == old(self).pending_despawns(),
            final(self).free_indices() == old(self).free_indices(),
            final(self).read_slot() == old(self).read_slot(),
            final(self).generation() == old(self).generation(),
            final(self).trackers() == old(self).trackers(),
    {
        let ghost sa = self.archetypes_manager.archetypes()[src.0 as int];
        let ghost da = self.archetypes_manager.archetypes()[dst.0 as int];
        let ghost s0 = sa.columns();
        proof {
            self.archetypes_manager.lemma_archetypes_wf();
            sa.lemma_column_ids_unique();
            da.lemma_column_ids_unique();
            assert(s0.subrange(0, 0) =~= Seq::<ComponentColumn<V>>::empty());
            assert(column_ids(Seq::<ComponentColumn<V>>::empty()) =~= Seq::<ComponentId>::empty());
        }
        let n = self.archetypes_manager.at(src.0 as usize).column_count();
        let mut k: usize = 0;
        while k < n
            invariant
                k <= n,
                n == s0.len(),
                src != dst,
                (src.0 as int) < self.archetypes_manager.archetypes().len(),
                (dst.0 as int) < self.archetypes_manager.archetypes().len(),
                column_ids(s0).no_duplicates(),
                column_ids(da.columns()).no_duplicates(),
                sa == old(self).archetypes_manager.archetypes()[src.0 as int],
                da == old(self).archetypes_manager.archetypes()[dst.0 as int],
                s0 == sa.columns(),
                self.wf(),
                self.archetypes_manager.spec_index() == old(self).archetypes_manager.spec_index(),
                self.archetypes_manager.archetypes().len() == old(self).archetypes_manager.archetypes().len(),
                forall|j: int|
                    0 <= j < old(self).archetypes_manager.archetypes().len() && j != src.0 as int && j != dst.0 as int
                        ==> #[trigger] self.archetypes_manager.archetypes()[j] == old(self).archetypes_manager.archetypes()[j],
                ({
                    let a = self.archetypes_manager.archetypes()[src.0 as int];
                    &&& a.spec_id() == sa.spec_id()
                    &&& a.types() == sa.types()
                    &&& a.entity_count() == sa.entity_count()
                    &&& a.entity_handles() == sa.entity_handles()
                    &&& a.marker_columns() == sa.marker_columns()
                    &&& a.names() == sa.names()
                    &&& a.columns().len() == s0.len()
                    &&& forall|q: int| k <= q < s0.len() ==> #[trigger] a.columns()[q] == s0[q]
                    &&& forall|q: int|
                        0 <= q < k ==> {
                            &&& (#[trigger] a.columns()[q]).spec_component() == s0[q].spec_component()
                            &&& a.columns()[q].values() == if (row as int) < s0[q].values().len() {
                                swap_removed(s0[q].values(), row as int)
                            } else {
                                s0[q].values()
                            }
                        }
                }),
                ({
                    let a = self.archetypes_manager.archetypes()[dst.0 as int];
                    &&& a.spec_id() == da.spec_id()
                    &&& a.types() == da.types()
                    &&& a.entity_count() == da.entity_count()
                    &&& a.entity_handles() == da.entity_handles()
                    &&& a.marker_columns() == da.marker_columns()
                    &&& a.names() == da.names()
                    &&& a.columns().len() == da.columns().len()
                    &&& forall|q: int|
                        0 <= q < da.columns().len() ==> {
                            &&& (#[trigger] a.columns()[q]).spec_component() == da.columns()[q].spec_component()
                            &&& a.columns()[q].values() == carried_seq(
                                da.columns()[q].values(),
                                da.columns()[q].spec_component(),
                                s0.subrange(0, k as int),
                                row as int,
                                added@,
                            )
                        }
                }),
                self.registry == old(self).registry,
                self.resources == old(self).resources,
                self.events == old(self).events,
                self.tracked_events == old(self).tracked_events,
                self.trackers == old(self).trackers,
                self.buffer == old(self).buffer,
                self.generation == old(self).generation,
                self.queue == old(self).queue,
                self.despawns == old(self).despawns,
                self.free_indices_list == old(self).free_indices_list,
            decreases n - k,
        {
            let ghost before_src = self.archetypes_manager.archetypes()[src.0 as int];
            let ghost before_dst = self.archetypes_manager.archetypes()[dst.0 as int];
            let c = self.archetypes_manager.at(src.0 as usize).column_at(k).component();
            let len = self.archetypes_manager.at(src.0 as usize).column_at(k).len();
            proof {
                assert(before_src.columns()[k as int] == s0[k as int]);
                assert forall|q: int| 0 <= q < da.columns().len() implies {
                    let cq = #[trigger] da.columns()[q].spec_component();
                    &&& cq != c ==> carried_seq(da.columns()[q].values(), cq, s0.subrange(0, k as int + 1), row as int, added@)
                        == carried_seq(da.columns()[q].values(), cq, s0.subrange(0, k as int), row as int, added@)
                    &&& cq == c ==> carried_seq(da.columns()[q].values(), cq, s0.subrange(0, k as int), row as int, added@)
                        == da.columns()[q].values()
                    &&& cq == c ==> carried_seq(da.columns()[q].values(), cq, s0.subrange(0, k as int + 1), row as int, added@)
                        == if !added@.contains(cq) && (row as int) < s0[k as int].values().len() {
                            da.columns()[q].values().push(s0[k as int].values()[row as int])
                        } else {
                            da.columns()[q].values()
                        }
                } by {
                    lemma_carried_step(da.columns()[q].values(), da.columns()[q].spec_component(), s0, k as int, row as int, added@);
                }
            }
            if row < len {
                let v = self.archetypes_manager.take_value(src, k, row);
                if !slice_contains(added, c) {
                    match self.archetypes_manager.at(dst.0 as usize).fetch_column_raw_opt(c) {
                        Some(p) => {
                            let ghost mid_dst = self.archetypes_manager.archetypes()[dst.0 as int];
                            self.archetypes_manager.push_value(dst, p, v);
                            proof {
                                assert forall|q: int| 0 <= q < da.columns().len() && q != p as int implies
                                    #[trigger] da.columns()[q].spec_component() != c by {
                                    assert(column_ids(da.columns())[q] == da.columns()[q].spec_component());
                                    assert(column_ids(da.columns())[p as int] == da.columns()[p as int].spec_component());
                                    assert(mid_dst.columns()[p as int].spec_component() == c);
                                }
                            }
                        },
                        None => {
                            proof {
                                assert forall|q: int| 0 <= q < da.columns().len() implies
                                    #[trigger] da.columns()[q].spec_component() != c by {
                                    assert(column_ids(before_dst.columns())[q] == before_dst.columns()[q].spec_component());
                                }
                            }
                        },
                    }
                } else {
                }
            }
            k += 1;
        }
        proof {
            assert(s0.subrange(0, n as int) =~= s0);
        }
    }

    /// Replaces, in row `row` of archetype `id`, the value of each kind of
    /// the bundle `kinds`/`values` that has a column long enough.
    fn set_bundle(&mut self, id: ArchetypeId, row: usize, kinds: &[ComponentId], values: Vec<V>)
        requires
            old(self).wf(),
            (id.0 as int) < old(self).manager().archetypes().len(),
            kinds@.no_duplicates(),
            values@.len() == kinds@.len(),
        ensures
            final(self).wf(),
            final(self).manager().spec_index() == old(self).manager().spec_index(),
            final(self).manager().archetypes().len() == old(self).manager().archetypes().len(),
            forall|j: int|
                0 <= j < old(self).manager().archetypes().len() && j != id.0 as int
                    ==> #[trigger] final(self).manager().archetypes()[j] == old(self).manager().archetypes()[j],
            ({
                let a = final(self).manager().archetypes()[id.0 as int];
                let b = old(self).manager().archetypes()[id.0 as int];
                &&& a.spec_id() == b.spec_id()
                &&& a.types() == b.types()
                &&& a.entity_count() == b.entity_count()
                &&& a.entity_handles() == b.entity_handles()
                &&& a.marker_columns() == b.marker_columns()
                &&& a.names() == b.names()
                &&& a.columns().len() == b.columns().len()
                &&& forall|k: int|
                    0 <= k < b.columns().len() ==> {
                        &&& (#[trigger] a.columns()[k]).spec_component() == b.columns()[k].spec_component()
                        &&& a.columns()[k].values() == replaced_seq(
                            b.columns()[k].values(),
                            b.columns()[k].spec_component(),
                            row as int,
                            kinds@,
                            values@,
                        )
                    }
            }),
            final(self).registry() == old(self).registry(),
            final(self).resources() == old(self).resources(),
            final(self).events() == old(self).events(),
            final(self).queued() == old(self).queued(),
            final(self).pending_despawns() == old(self).pending_despawns(),
            final(self).free_indices() == old(self).free_indices(),
            final(self).read_slot() == old(self).read_slot(),
            final(self).generation() == old(self).generation(),
            final(self).trackers() == old(self).trackers(),
    {
        let ghost b = self.archetypes_manager.archetypes()[id.0 as int];
        let ghost vals = values@;
        proof {
            self.archetypes_manager.lemma_archetypes_wf();
            b.lemma_column_ids_unique();
        }
        let mut values = values;
        let mut i: usize = kinds.len();
        while i > 0
            invariant
                i <= kinds@.len(),
                values@ == vals.subrange(0, i as int),
                vals.len() == kinds@.len(),
                kinds@.no_duplicates(),
                column_ids(b.columns()).no_duplicates(),
                self.wf(),
                (id.0 as int) < self.archetypes_manager.archetypes().len(),
                b == old(self).archetypes_manager.archetypes()[id.0 as int],
                self.archetypes_manager.spec_index() == old(self).archetypes_manager.spec_index(),
                self.archetypes_manager.archetypes().len() == old(self).archetypes_manager.archetypes().len(),
                forall|j: int|
                    0 <= j < old(self).archetypes_manager.archetypes().len() && j != id.0 as int
                        ==> #[trigger] self.archetypes_manager.archetypes()[j] == old(self).archetypes_manager.archetypes()[j],
                ({
                    let a = self.archetypes_manager.archetypes()[id.0 as int];
                    &&& a.spec_id() == b.spec_id()
                    &&& a.types() == b.types()
                    &&& a.entity_count() == b.entity_count()
                    &&& a.entity_handles() == b.entity_handles()
                    &&& a.marker_columns() == b.marker_columns()
                    &&& a.names() == b.names()
                    &&& a.columns().len() == b.columns().len()
                    &&& forall|k: int|
                        0 <= k < b.columns().len() ==> {
                            &&& (#[trigger] a.columns()[k]).spec_component() == b.columns()[k].spec_component()
                            &&& a.columns()[k].values() == if kinds@.subrange(i as int, kinds@.len() as int).contains(
                                b.columns()[k].spec_component(),
                            ) && (row as int) < b.columns()[k].values().len() {
                                b.columns()[k].values().update(row as int, vals[kinds@.index_of(b.columns()[k].spec_component())])
                            } else {
                                b.columns()[k].values()
                            }
                        }
                }),
                self.registry == old(self).registry,
                self.resources == old(self).resources,
                self.events == old(self).events,
                self.tracked_events == old(self).tracked_events,
                self.trackers == old(self).trackers,
                self.buffer == old(self).buffer,
                self.generation == old(self).generation,
                self.queue == old(self).queue,
                self.despawns == old(self).despawns,
                self.free_indices_list == old(self).free_indices_list,
            decreases i,
        {
            i -= 1;
            let value = values.pop().unwrap();
            proof {
                assert(value == vals[i as int]);
                assert(values@ =~= vals.subrange(0, i as int));
            }
            let c = kinds[i];
            let ghost tail0 = kinds@.subrange(i as int, kinds@.len() as int);
            let ghost tail1 = kinds@.subrange(i as int + 1, kinds@.len() as int);
            proof {
                assert(kinds@[i as int] == c);
                assert(kinds@.index_of(c) == i as int);
                assert(tail0[0] == c);
                assert(!tail1.contains(c)) by {
                    if tail1.contains(c) {
                        let t = choose|t: int| 0 <= t < kinds@.len() - i - 1 && tail1[t] == c;
                        assert(kinds@[i as int + 1 + t] == kinds@[i as int]);
                    }
                }
                assert forall|cq: ComponentId| #[trigger] tail0.contains(cq) <==> (cq == c || tail1.contains(cq)) by {
                    if tail0.contains(cq) {
                        let t = choose|t: int| 0 <= t < kinds@.len() - i && tail0[t] == cq;
                        if t > 0 {
                            assert(tail1[t - 1] == cq);
                        }
                    }
                    if tail1.contains(cq) {
                        let t = choose|t: int| 0 <= t < kinds@.len() - i - 1 && tail1[t] == cq;
                        assert(tail0[t + 1] == cq);
                    }
                }
            }
            let ghost a0 = self.archetypes_manager.archetypes()[id.0 as int];
            match self.archetypes_manager.at(id.0 as usize).fetch_column_raw_opt(c) {
                Some(k) => {
                    if row < self.archetypes_manager.at(id.0 as usize).column_at(k).len() {
                        self.archetypes_manager.set_value(id, k, row, value);
                        proof {
                            assert forall|q: int| 0 <= q < b.columns().len() && q != k as int implies
                                #[trigger] b.columns()[q].spec_component() != c by {
                                assert(column_ids(b.columns())[q] == b.columns()[q].spec_component());
                                assert(column_ids(b.columns())[k as int] == b.columns()[k as int].spec_component());
                                assert(a0.columns()[k as int].spec_component() == c);
                            }
                        }
                    } else {
                        proof {
                            assert forall|q: int| 0 <= q < b.columns().len() && q != k as int implies
                                #[trigger] b.columns()[q].spec_component() != c by {
                                assert(column_ids(b.columns())[q] == b.columns()[q].spec_component());
                                assert(column_ids(b.columns())[k as int] == b.columns()[k as int].spec_component());
                                assert(a0.columns()[k as int].spec_component() == c);
                            }
                        }
                    }
                },
                None => {
                    proof {
                        assert forall|q: int| 0 <= q < b.columns().len() implies
                            #[trigger] b.columns()[q].spec_component() != c by {
                            assert(column_ids(a0.columns())[q] == a0.columns()[q].spec_component());
                        }
                    }
                },
            }
        }
        proof {
            assert(kinds@.subrange(0, kinds@.len() as int) =~= kinds@);
        }
    }

    /// Stores the bundle `kinds`/`values` in archetype `id`: each column of
    /// a bundle kind gets that kind's value appended.
    fn push_bundle(&mut self, id: ArchetypeId, kinds: &[ComponentId], values: Vec<V>)
        requires
            old(self).wf(),
            (id.0 as int) < old(self).manager().archetypes().len(),
            kinds@.no_duplicates(),
            values@.len() == kinds@.len(),
        ensures
            final(self).wf(),
            final(self).manager().spec_index() == old(self).manager().spec_index(),
            final(self).manager().archetypes().len() == old(self).manager().archetypes().len(),
            forall|j: int|
                0 <= j < old(self).manager().archetypes().len() && j != id.0 as int
                    ==> #[trigger] final(self).manager().archetypes()[j] == old(self).manager().archetypes()[j],
            ({
                let a = final(self).manager().archetypes()[id.0 as int];
                let b = old(self).manager().archetypes()[id.0 as int];
                &&& a.spec_id() == b.spec_id()
                &&& a.types() == b.types()
                &&& a.entity_count() == b.entity_count()
                &&& a.entity_handles() == b.entity_handles()
                &&& a.marker_columns() == b.marker_columns()
                &&& a.names() == b.names()
                &&& a.columns().len() == b.columns().len()
                &&& forall|k: int|
                    0 <= k < b.columns().len() ==> {
                        &&& (#[trigger] a.columns()[k]).spec_component() == b.columns()[k].spec_component()
                        &&& a.columns()[k].values() == bundle_values(b.columns()[k], kinds@, values@)
                    }
            }),
            final(self).registry() == old(self).registry(),
            final(self).resources() == old(self).resources(),
            final(self).events() == old(self).events(),
            final(self).queued() == old(self).queued(),
            final(self).pending_despawns() == old(self).pending_despawns(),
            final(self).free_indices() == old(self).free_indices(),
            final(self).read_slot() == old(self).read_slot(),
            final(self).generation() == old(self).generation(),
            final(self).trackers() == old(self).trackers(),
    {
        let ghost b = self.archetypes_manager.archetypes()[id.0 as int];
        let ghost vals = values@;
        let mut values = values;
        let mut i: usize = kinds.len();
        while i > 0
            invariant
                i <= kinds@.len(),
                values@ == vals.subrange(0, i as int),
                vals.len() == kinds@.len(),
                kinds@.no_duplicates(),
                self.wf(),
                (id.0 as int) < self.archetypes_manager.archetypes().len(),
                b == old(self).archetypes_manager.archetypes()[id.0 as int],
                self.archetypes_manager.spec_index() == old(self).archetypes_manager.spec_index(),
                self.archetypes_manager.archetypes().len() == old(self).archetypes_manager.archetypes().len(),
                forall|j: int|
                    0 <= j < old(self).archetypes_manager.archetypes().len() && j != id.0 as int
                        ==> #[trigger] self.archetypes_manager.archetypes()[j] == old(self).archetypes_manager.archetypes()[j],
                ({
                    let a = self.archetypes_manager.archetypes()[id.0 as int];
                    &&& a.spec_id() == b.spec_id()
                    &&& a.types() == b.types()
                    &&& a.entity_count() == b.entity_count()
                    &&& a.entity_handles() == b.entity_handles()
                    &&& a.marker_columns() == b.marker_columns()
                    &&& a.names() == b.names()
                    &&& a.columns().len() == b.columns().len()
                    &&& forall|k: int|
                        0 <= k < b.columns().len() ==> {
                            &&& (#[trigger] a.columns()[k]).spec_component() == b.columns()[k].spec_component()
                            &&& a.columns()[k].values() == if kinds@.subrange(i as int, kinds@.len() as int).contains(
                                b.columns()[k].spec_component(),
                            ) {
                                b.columns()[k].values().push(vals[kinds@.index_of(b.columns()[k].spec_component())])
                            } else {
                                b.columns()[k].values()
                            }
                        }
                }),
                self.registry == old(self).registry,
                self.resources == old(self).resources,
                self.events == old(self).events,
                self.tracked_events == old(self).tracked_events,
                self.trackers == old(self).trackers,
                self.buffer == old(self).buffer,
                self.generation == old(self).generation,
                self.queue == old(self).queue,
                self.despawns == old(self).despawns,
                self.free_indices_list == old(self).free_indices_list,
            decreases i,
        {
            i -= 1;
            let value = values.pop().unwrap();
            proof {
                assert(value == vals[i as int]);
                assert(values@ =~= vals.subrange(0, i as int));
            }
            let c = kinds[i];
            let ghost tail0 = kinds@.subrange(i as int, kinds@.len() as int);
            let ghost tail1 = kinds@.subrange(i as int + 1, kinds@.len() as int);
            let pos = self.archetypes_manager.at(id.0 as usize).fetch_column_raw_opt(c);
            let ghost a0 = self.archetypes_manager.archetypes()[id.0 as int];
            proof {
                self.archetypes_manager.lemma_archetypes_wf();
                a0.lemma_column_ids_unique();
                assert(kinds@[i as int] == c);
                assert(kinds@.index_of(c) == i as int);
            }
            match pos {
                Some(k) => {
                    self.archetypes_manager.push_value(id, k, value);
                    proof {
                        let a = self.archetypes_manager.archetypes()[id.0 as int];
                        assert forall|q: int| 0 <= q < b.columns().len() implies {
                            &&& (#[trigger] a.columns()[q]).spec_component() == b.columns()[q].spec_component()
                            &&& a.columns()[q].values() == if tail0.contains(
                                b.columns()[q].spec_component(),
                            ) {
                                b.columns()[q].values().push(vals[kinds@.index_of(b.columns()[q].spec_component())])
                            } else {
                                b.columns()[q].values()
                            }
                        } by {
                            let cq = b.columns()[q].spec_component();
                            assert(tail0.contains(cq) <==> (cq == c
                                || tail1.contains(cq))) by {
                                if tail0.contains(cq) {
                                    let t = choose|t: int| 0 <= t < kinds@.len() - i && tail0[t] == cq;
                                    if t > 0 {
                                        assert(tail1[t - 1] == cq);
                                    }
                                }
                                if tail1.contains(cq) {
                                    let t = choose|t: int| 0 <= t < kinds@.len() - i - 1 && tail1[t] == cq;
                                    assert(tail0[t + 1] == cq);
                                }
                                if cq == c {
                                    assert(tail0[0] == cq);
                                }
                            }
                            if q == k as int {
                                assert(!tail1.contains(c)) by {
                                    if tail1.contains(c) {
                                        let t = choose|t: int| 0 <= t < kinds@.len() - i - 1 && tail1[t] == c;
                                        assert(kinds@[i as int + 1 + t] == kinds@[i as int]);
                                    }
                                }
                            } else {
                                assert(a0.columns()[q] == a.columns()[q]);
                                assert(cq != c) by {
                                    assert(column_ids(a0.columns())[q] == cq);
                                    assert(column_ids(a0.columns())[k as int] == c);
                                }
                            }
                        }
                    }
                },
                None => {
                    proof {
                        let a = self.archetypes_manager.archetypes()[id.0 as int];
                        assert forall|q: int| 0 <= q < b.columns().len() implies {
                            &&& (#[trigger] a.columns()[q]).spec_component() == b.columns()[q].spec_component()
                            &&& a.columns()[q].values() == if tail0.contains(
                                b.columns()[q].spec_component(),
                            ) {
                                b.columns()[q].values().push(vals[kinds@.index_of(b.columns()[q].spec_component())])
                            } else {
                                b.columns()[q].values()
                            }
                        } by {
                            let cq = b.columns()[q].spec_component();
                            assert(column_ids(a0.columns())[q] == cq);
                            assert(cq != c);
                            assert(tail0.contains(cq) <==>
                                tail1.contains(cq)) by {
                                if tail0.contains(cq) {
                                    let t = choose|t: int| 0 <= t < kinds@.len() - i && tail0[t] == cq;
                                    if t > 0 {
                                        assert(tail1[t - 1] == cq);
                                    }
                                }
                                if tail1.contains(cq) {
                                    let t = choose|t: int| 0 <= t < kinds@.len() - i - 1 && tail1[t] == cq;
                                    assert(tail0[t + 1] == cq);
                                }
                            }
                        }
                    }
                },
            }
        }
        proof {
            assert(kinds@.subrange(0, kinds@.len() as int) =~= kinds@);
        }
    }

    /// Spawns an entity with the bundle `kinds`/`values`: finds or creates
    /// the archetype of the kinds, gives the entity the next registry
    /// position with one handle, appends its row to the archetype, and
    /// stores each value in its kind's column.
    pub fn spawn(&mut self, kinds: &[ComponentId], names: Vec<&'static str>, values: Vec<V>) -> (e: Entity)
        requires
            kinds@.no_duplicates(),
            values@.len() == kinds@.len(),
            old(self).wf(),
            old(self).manager().archetypes().len() < u32::MAX,
            old(self).registry().len() < u32::MAX,
            forall|i: int|
                0 <= i < old(self).manager().archetypes().len() ==> (#[trigger] old(self).manager().archetypes()[i]).entity_count()
                    < u32::MAX,
        ensures
            final(self).wf(),
            ({
                let h = set_hash(synced(kinds@.to_set(), old(self).trackers(), old(self).trackers().len() as int));
                let found = lookup_or_create(old(self).manager().spec_index(), old(self).manager().archetypes().len(), h);
                let id = found.0;
                &&& final(self).manager().spec_index() == found.1
                &&& e.index() == old(self).registry().len()
                &&& final(self).registry().len() == old(self).registry().len() + 1
                &&& final(self).registry().drop_last() == old(self).registry()
                &&& final(self).registry().last().archetype_id == id
                &&& final(self).registry().last().handle_count == 1
                &&& (id.0 as int) < final(self).manager().archetypes().len()
                &&& final(self).manager().archetypes()[id.0 as int].entity_count() == final(self).registry().last().idx + 1
                &&& forall|j: int|
                    0 <= j < old(self).manager().archetypes().len() && j != id.0 as int
                        ==> #[trigger] final(self).manager().archetypes()[j] == old(self).manager().archetypes()[j]
                &&& {
                    let grown = if (id.0 as int) < old(self).manager().archetypes().len() {
                        rows_of(old(self).manager())
                    } else {
                        rows_of(old(self).manager()).push(Seq::<u32>::empty())
                    };
                    &&& rows_of(final(self).manager()) == grown.update(id.0 as int, grown[id.0 as int].push(e.index()))
                    &&& final(self).registry() == old(self).registry().push(
                        RegistryCell { archetype_id: id, idx: grown[id.0 as int].len() as u32, handle_count: 1 },
                    )
                }
                &&& {
                    let a = final(self).manager().archetypes()[id.0 as int];
                    if (id.0 as int) < old(self).manager().archetypes().len() {
                        let b = old(self).manager().archetypes()[id.0 as int];
                        &&& a.columns().len() == b.columns().len()
                        &&& forall|k: int|
                            0 <= k < b.columns().len() ==> {
                                &&& (#[trigger] a.columns()[k]).spec_component() == b.columns()[k].spec_component()
                                &&& a.columns()[k].values() == bundle_values(b.columns()[k], kinds@, values@)
                            }
                    } else {
                        &&& column_ids(a.columns()).to_set() == kinds@.to_set()
                        &&& forall|k: int|
                            0 <= k < a.columns().len() ==> (#[trigger] a.columns()[k]).values() == seq![
                                values@[kinds@.index_of(a.columns()[k].spec_component())],
                            ]
                    }
                }
            }),
            final(self).resources() == old(self).resources(),
            final(self).events() == old(self).events(),
            final(self).pending_despawns() == old(self).pending_despawns(),
            final(self).queued() == old(self).queued(),
    {
        let ghost a0 = self.archetypes_manager.archetypes();
        let ghost rows0 = rows_of(self.archetypes_manager);
        let ghost n0 = a0.len();
        let id = self.pre_allocate_archetype(kinds, names);
        let ghost grown = if (id.0 as int) < n0 {
            rows0
        } else {
            rows0.push(Seq::<u32>::empty())
        };
        proof {
            self.archetypes_manager.lemma_archetypes_wf();
            let m = self.archetypes_manager;
            assert forall|j: int| 0 <= j < m.archetypes().len() implies #[trigger] rows_of(m)[j] == grown[j] by {
                if j >= n0 {
                    assert(j == id.0 as int);
                    m.archetypes()[j].lemma_count_is_handles();
                    assert(m.archetypes()[j].entity_handles() =~= Seq::<u32>::empty());
                }
            }
            assert(rows_of(self.archetypes_manager) =~= grown);
            m.archetypes()[id.0 as int].lemma_count_is_handles();
        }
        let row = self.archetypes_manager.at(id.0 as usize).len();
        proof {
            if (id.0 as int) < a0.len() {
                assert(self.archetypes_manager.archetypes()[id.0 as int] == a0[id.0 as int]);
            }
        }
        let index = self.registry.len() as u32;
        self.registry.push(RegistryCell { archetype_id: id, idx: row as u32, handle_count: 1 });
        let e = Entity::new(index);
        let ghost before_push = rows_of(self.archetypes_manager);
        self.push_entity_row(id, Entity::new(index));
        proof {
            assert(self.registry@.drop_last() =~= old(self).registry@);
            assert(rows_of(self.archetypes_manager) =~= before_push.update(id.0 as int, before_push[id.0 as int].push(index)));
        }
        let ghost fresh = self.archetypes_manager.archetypes()[id.0 as int];
        let ghost rows1 = rows_of(self.archetypes_manager);
        self.push_bundle(id, kinds, values);
        proof {
            assert(rows_of(self.archetypes_manager) =~= rows1);
            let a = self.archetypes_manager.archetypes()[id.0 as int];
            if (id.0 as int) >= n0 {
                assert(column_ids(a.columns()) =~= column_ids(fresh.columns()));
                assert forall|k: int| 0 <= k < a.columns().len() implies (#[trigger] a.columns()[k]).values() == seq![
                    values@[kinds@.index_of(a.columns()[k].spec_component())],
                ] by {
                    let c = fresh.columns()[k].spec_component();
                    assert(column_ids(fresh.columns())[k] == c);
                    assert(column_ids(fresh.columns()).to_set().contains(c));
                    assert(fresh.columns()[k].values().len() == 0);
                    assert(fresh.columns()[k].values().push(values@[kinds@.index_of(c)]) =~= seq![values@[kinds@.index_of(c)]]);
                }
            }
        }
        e
    }
}

/// A resource read after a write gives what was written; writing one
/// resource leaves the others as they were; a removed resource is gone.
pub proof fn lemma_resource_read_after_write<R>(m: Map<ComponentId, R>, id: ComponentId, v: R, other: ComponentId)
    ensures
        m.insert(id, v).contains_key(id),
        m.insert(id, v)[id] == v,
        other != id ==> m.insert(id, v).contains_key(other) == m.contains_key(other),
        other != id && m.contains_key(other) ==> m.insert(id, v)[other] == m[other],
        !m.insert(id, v).remove(id).contains_key(id),
{
}

/// What `end_of_frame_sync` leaves in a marker column is the column after
/// one frame in the sense of the tracking laws: the addition slots as in
/// `after_frame`, so an addition is reported in the next frame only, and the
/// stamps with the stale ones reset, so a reset stamp is seen by nobody.
pub proof fn lemma_end_of_frame_is_after_frame(a: MarkerColumn, b: MarkerColumn, read: u8, generation: u8, row: int, ctx: ReadContext)
    requires
        cleared_from(a, b, write_slot(advanced(read)), next_generation(generation)),
        0 <= row < b.stamps().len(),
        b.stamps()[row].0 == previous_generation(previous_generation(next_generation(generation))),
    ensures
        a.rows() == after_frame(b.rows(), read),
        !stamp_seen(a.stamps()[row], ctx),
{
}

} // verus!
