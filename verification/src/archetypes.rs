//! Archetypes: groups of entities with the same set of component kinds,
//! stored column by column, found again through an order-independent hash of
//! their component set.
use crate::entity::Entity;
use crate::reactivity::{MarkerColumn, MarkerKind, TrackedComponents};
use crate::type_set::TypeSet;
use crate::validation::{AccessHashSet, ComponentId};
use std::collections::HashMap;
use vstd::prelude::*;

verus! {

broadcast use vstd::std_specs::hash::group_hash_axioms;

/// The number of an archetype; archetypes are numbered from 0 in creation
/// order.
#[derive(Clone, Copy, PartialEq, Eq, Debug, Hash)]
pub struct ArchetypeId(pub u32);

impl ArchetypeId {
    pub fn new(id: u32) -> (r: ArchetypeId)
        ensures
            r.0 == id,
    {
        ArchetypeId(id)
    }

    pub fn id(&self) -> (r: u32)
        ensures
            r == self.0,
    {
        self.0
    }
}

/// The Fx hash of one 64-bit word: the word times the Fx seed, wrapping.
pub open spec fn fx_hash_word(x: u64) -> u64 {
    vstd::wrapping::u64_specs::wrapping_mul(x, 0x517cc1b727220a95u64)
}

/// `fxhash::hash64` of a `u64`: a fresh 64-bit Fx hasher (state 0) fed one
/// word, so the state becomes `(0 rotated) ^ x`, times the seed, wrapping.
#[verifier::external_body]
fn fx_hash64(x: u64) -> (r: u64)
    ensures
        r == fx_hash_word(x),
{
    fxhash::hash64(&x)
}

/// The exclusive-or of the Fx hashes of the entries.
pub open spec fn combined_hash(s: Seq<u64>) -> u64
    decreases s.len(),
{
    if s.len() == 0 {
        0
    } else {
        combined_hash(s.drop_last()) ^ fx_hash_word(s.last())
    }
}

proof fn lemma_xor_swap(a: u64, b: u64, c: u64)
    ensures
        (a ^ b) ^ c == (a ^ c) ^ b,
{
    assert((a ^ b) ^ c == (a ^ c) ^ b) by (bit_vector);
}

proof fn lemma_combined_hash_remove(s: Seq<u64>, j: int)
    requires
        0 <= j < s.len(),
    ensures
        combined_hash(s) == combined_hash(s.remove(j)) ^ fx_hash_word(s[j]),
    decreases s.len(),
{
    if j == s.len() - 1 {
        assert(s.remove(j) =~= s.drop_last());
    } else {
        let d = s.drop_last();
        lemma_combined_hash_remove(d, j);
        assert(d.remove(j) =~= s.remove(j).drop_last());
        assert(s.remove(j).last() == s.last());
        lemma_xor_swap(combined_hash(d.remove(j)), fx_hash_word(s[j]), fx_hash_word(s.last()));
    }
}

pub(crate) proof fn lemma_remove_first_unique(s: Seq<u64>, x: u64)
    requires
        s.no_duplicates(),
        s.contains(x),
    ensures
        s.remove_value(x).no_duplicates(),
        s.remove_value(x).to_set() == s.to_set().remove(x),
        s.index_of_first(x) is Some,
        0 <= s.index_of_first(x).unwrap() < s.len(),
        s[s.index_of_first(x).unwrap()] == x,
        s.remove_value(x) == s.remove(s.index_of_first(x).unwrap()),
{
    s.index_of_first_ensures(x);
    let i = s.index_of_first(x).unwrap();
    let t = s.remove(i);
    assert forall|a: int, b: int| 0 <= a < t.len() && 0 <= b < t.len() && a != b implies t[a]
        != t[b] by {
        let a0 = if a < i {
            a
        } else {
            a + 1
        };
        let b0 = if b < i {
            b
        } else {
            b + 1
        };
        assert(t[a] == s[a0]);
        assert(t[b] == s[b0]);
    }
    assert(t.to_set() =~= s.to_set().remove(x)) by {
        assert forall|y: u64| t.contains(y) <==> (s.contains(y) && y != x) by {
            if t.contains(y) {
                let k = choose|k: int| 0 <= k < t.len() && t[k] == y;
                let k0 = if k < i {
                    k
                } else {
                    k + 1
                };
                assert(s[k0] == y);
                assert(k0 != i);
            }
            if s.contains(y) && y != x {
                let k = choose|k: int| 0 <= k < s.len() && s[k] == y;
                assert(k != i);
                if k < i {
                    assert(t[k] == y);
                } else {
                    assert(t[k - 1] == y);
                }
            }
        }
    }
}

/// The hash of a component set does not depend on the order in which its
/// entries were inserted: two duplicate-free sequences with the same
/// entries hash alike.
pub proof fn lemma_combined_hash_order_independent(a: Seq<u64>, b: Seq<u64>)
    requires
        a.no_duplicates(),
        b.no_duplicates(),
        a.to_set() == b.to_set(),
    ensures
        combined_hash(a) == combined_hash(b),
    decreases a.len(),
{
    if a.len() == 0 {
        if b.len() > 0 {
            assert(b.to_set().contains(b[0]));
            assert(a.to_set().contains(b[0]));
        }
    } else {
        let x = a.last();
        assert(a.to_set().contains(x)) by {
            assert(a[a.len() - 1] == x);
        }
        assert(b.contains(x));
        assert(a.contains(x)) by {
            assert(a[a.len() - 1] == x);
        }
        lemma_remove_first_unique(a, x);
        lemma_remove_first_unique(b, x);
        let ia = a.index_of_first(x).unwrap();
        assert(ia == a.len() - 1) by {
            if ia != a.len() - 1 {
                assert(a[ia] == a[a.len() - 1]);
            }
        }
        assert(a.remove(ia) =~= a.drop_last());
        let ib = b.index_of_first(x).unwrap();
        lemma_combined_hash_order_independent(a.remove_value(x), b.remove_value(x));
        lemma_combined_hash_remove(b, ib);
    }
}

/// One column of component values, all of one kind.
pub struct ComponentColumn<V> {
    pub(crate) component: ComponentId,
    pub(crate) data: Vec<V>,
}

impl<V> ComponentColumn<V> {
    pub closed spec fn spec_component(&self) -> ComponentId {
        self.component
    }

    pub closed spec fn values(&self) -> Seq<V> {
        self.data@
    }

    /// An empty column for `component`.
    pub fn new(component: ComponentId) -> (r: ComponentColumn<V>)
        ensures
            r.spec_component() == component,
            r.values() == Seq::<V>::empty(),
    {
        ComponentColumn { component, data: Vec::new() }
    }

    /// An empty column of the same kind.
    pub fn clone_empty(&self) -> (r: ComponentColumn<V>)
        ensures
            r.spec_component() == self.spec_component(),
            r.values() == Seq::<V>::empty(),
    {
        ComponentColumn { component: self.component, data: Vec::new() }
    }

    pub fn component(&self) -> (r: ComponentId)
        ensures
            r == self.spec_component(),
    {
        self.component
    }

    pub fn len(&self) -> (r: usize)
        ensures
            r == self.values().len(),
    {
        self.data.len()
    }

    pub fn push(&mut self, value: V)
        ensures
            final(self).spec_component() == old(self).spec_component(),
            final(self).values() == old(self).values().push(value),
    {
        self.data.push(value);
    }

    /// The value at row `idx`.
    pub fn get(&self, idx: usize) -> (r: &V)
        requires
            idx < self.values().len(),
        ensures
            *r == self.values()[idx as int],
    {
        &self.data[idx]
    }

    /// Replaces the value at row `idx`.
    pub fn set_value(&mut self, idx: usize, value: V)
        requires
            idx < old(self).values().len(),
        ensures
            final(self).spec_component() == old(self).spec_component(),
            final(self).values() == old(self).values().update(idx as int, value),
    {
        self.data.set(idx, value);
    }

    /// Removes row `idx`, moving the last row into its place.
    pub fn swap_remove_erased(&mut self, idx: usize) -> (r: V)
        requires
            idx < old(self).values().len(),
        ensures
            final(self).spec_component() == old(self).spec_component(),
            r == old(self).values()[idx as int],
            final(self).values() == old(self).values().update(
                idx as int,
                old(self).values().last(),
            ).drop_last(),
    {
        self.data.swap_remove(idx)
    }

    /// Moves row `index` to the end of `dst`, moving this column's last row
    /// into its place.
    pub fn move_row_erased(&mut self, index: usize, dst: &mut ComponentColumn<V>)
        requires
            index < old(self).values().len(),
        ensures
            final(self).spec_component() == old(self).spec_component(),
            final(dst).spec_component() == old(dst).spec_component(),
            final(self).values() == old(self).values().update(
                index as int,
                old(self).values().last(),
            ).drop_last(),
            final(dst).values() == old(dst).values().push(old(self).values()[index as int]),
    {
        let item = self.data.swap_remove(index);
        dst.data.push(item);
    }
}

/// The entities that share one set of component kinds, with one column per
/// component kind and one marker column per trackers kind.
pub struct Archetype<V> {
    pub(crate) id: ArchetypeId,
    pub(crate) types: TypeSet,
    pub(crate) entities: Vec<Entity>,
    pub(crate) columns: Vec<ComponentColumn<V>>,
    pub(crate) markers: Vec<MarkerColumn>,
    pub(crate) type_names: Vec<&'static str>,
}

/// `a` is `b` at the end of a frame: slot `w` of every row cleared, and the
/// stamps that are stale in generation `current` reset.
pub open spec fn cleared_from(a: MarkerColumn, b: MarkerColumn, w: u8, current: u8) -> bool {
    &&& a.spec_marker_id() == b.spec_marker_id()
    &&& a.spec_kind() == b.spec_kind()
    &&& a.rows() == crate::reactivity::cleared(b.rows(), w as int)
    &&& a.stamps() == crate::reactivity::stale_cleared(b.stamps(), current)
}

/// `s` with entry `row` replaced by the last entry, and the last entry
/// dropped.
pub open spec fn swap_removed<T>(s: Seq<T>, row: int) -> Seq<T> {
    s.update(row, s.last()).drop_last()
}

/// The column numbers of a list of columns.
pub open spec fn column_ids<V>(columns: Seq<ComponentColumn<V>>) -> Seq<ComponentId> {
    Seq::new(columns.len(), |i: int| columns[i].spec_component())
}

/// The marker numbers of a list of marker columns.
pub open spec fn marker_ids(markers: Seq<MarkerColumn>) -> Seq<ComponentId> {
    Seq::new(markers.len(), |i: int| markers[i].spec_marker_id())
}

impl<V> Archetype<V> {
    pub closed spec fn spec_id(&self) -> ArchetypeId {
        self.id
    }

    /// The component kinds, in insertion order.
    pub closed spec fn types(&self) -> Seq<ComponentId> {
        self.types@
    }

    pub closed spec fn entity_count(&self) -> nat {
        self.entities@.len()
    }

    /// The registry positions of the entities, by row.
    pub closed spec fn entity_handles(&self) -> Seq<u32> {
        Seq::new(self.entities@.len(), |i: int| self.entities@[i].index())
    }

    pub proof fn lemma_count_is_handles(&self)
        ensures
            self.entity_handles().len() == self.entity_count(),
    {
    }

    pub closed spec fn columns(&self) -> Seq<ComponentColumn<V>> {
        self.columns@
    }

    pub closed spec fn marker_columns(&self) -> Seq<MarkerColumn> {
        self.markers@
    }

    pub closed spec fn names(&self) -> Seq<&'static str> {
        self.type_names@
    }

    /// No kind occurs twice, and no column number twice.
    pub closed spec fn wf(&self) -> bool {
        &&& self.types.wf()
        &&& column_ids(self.columns@).no_duplicates()
        &&& marker_ids(self.markers@).no_duplicates()
    }

    /// An archetype with no entities yet.
    pub fn new(
        id: ArchetypeId,
        types: TypeSet,
        columns: Vec<ComponentColumn<V>>,
        markers: Vec<MarkerColumn>,
        type_names: Vec<&'static str>,
    ) -> (r: Archetype<V>)
        ensures
            r.spec_id() == id,
            r.types() == types@,
            r.entity_count() == 0,
            r.columns() == columns@,
            r.marker_columns() == markers@,
            r.names() == type_names@,
            r.wf() <==> (types.wf() && column_ids(columns@).no_duplicates() && marker_ids(
                markers@,
            ).no_duplicates()),
    {
        Archetype { id, types, entities: Vec::new(), columns, markers, type_names }
    }

    pub fn id(&self) -> (r: u32)
        ensures
            r == self.spec_id().0,
    {
        self.id.0
    }

    pub fn len(&self) -> (r: usize)
        ensures
            r == self.entity_count(),
    {
        self.entities.len()
    }

    /// Whether the archetype holds kind `c`.
    pub fn has_type(&self, c: ComponentId) -> (r: bool)
        ensures
            r == self.types().contains(c),
    {
        self.types.contains(c)
    }

    /// The position of the column of kind `c`, if there is one.
    pub fn fetch_column_raw_opt(&self, c: ComponentId) -> (r: Option<usize>)
        ensures
            match r {
                Some(i) => i < self.columns().len() && self.columns()[i as int].spec_component() == c,
                None => !column_ids(self.columns()).contains(c),
            },
    {
        let mut i: usize = 0;
        while i < self.columns.len()
            invariant
                i <= self.columns@.len(),
                forall|k: int| 0 <= k < i ==> self.columns@[k].spec_component() != c,
            decreases self.columns@.len() - i,
        {
            if self.columns[i].component() == c {
                return Some(i);
            }
            i += 1;
        }
        proof {
            if column_ids(self.columns@).contains(c) {
                let k = choose|k: int| 0 <= k < self.columns@.len() && column_ids(self.columns@)[k] == c;
                assert(self.columns@[k].spec_component() == c);
            }
        }
        None
    }

    /// The column of kind `c`, if there is one.
    pub fn column(&self, c: ComponentId) -> (r: Option<&ComponentColumn<V>>)
        ensures
            match r {
                Some(col) => col.spec_component() == c && self.columns().contains(*col),
                None => !column_ids(self.columns()).contains(c),
            },
    {
        match self.fetch_column_raw_opt(c) {
            Some(i) => {
                assert(self.columns@[i as int] == self.columns@[i as int]);
                Some(&self.columns[i])
            },
            None => None,
        }
    }

    /// The number of columns.
    pub fn column_count(&self) -> (r: usize)
        ensures
            r == self.columns().len(),
    {
        self.columns.len()
    }

    /// The column at position `i`.
    pub fn column_at(&self, i: usize) -> (r: &ComponentColumn<V>)
        requires
            i < self.columns().len(),
        ensures
            *r == self.columns()[i as int],
    {
        &self.columns[i]
    }

    /// Appends `value` to the column at position `k`.
    pub fn push_value(&mut self, k: usize, value: V)
        requires
            k < old(self).columns().len(),
        ensures
            final(self).spec_id() == old(self).spec_id(),
            final(self).types() == old(self).types(),
            final(self).entity_count() == old(self).entity_count(),
            final(self).entity_handles() == old(self).entity_handles(),
            final(self).marker_columns() == old(self).marker_columns(),
            final(self).names() == old(self).names(),
            final(self).wf() == old(self).wf(),
            final(self).columns().len() == old(self).columns().len(),
            forall|j: int|
                0 <= j < old(self).columns().len() && j != k ==> #[trigger] final(self).columns()[j]
                    == old(self).columns()[j],
            final(self).columns()[k as int].spec_component() == old(self).columns()[k as int].spec_component(),
            final(self).columns()[k as int].values() == old(self).columns()[k as int].values().push(value),
    {
        let ghost before = self.columns@;
        let mut col = self.columns.remove(k);
        col.push(value);
        self.columns.insert(k, col);
        proof {
            assert forall|j: int| 0 <= j < before.len() && j != k implies self.columns@[j] == before[j] by {
                if j < k {
                    assert(self.columns@[j] == before.remove(k as int)[j]);
                } else {
                    assert(self.columns@[j] == before.remove(k as int)[j - 1]);
                }
            }
            assert forall|j: int| 0 <= j < before.len() implies column_ids(self.columns@)[j] == column_ids(before)[j] by {
                if j != k {
                    assert(self.columns@[j] == before[j]);
                }
            }
            assert(column_ids(self.columns@) =~= column_ids(before));
            assert(self.entity_handles() =~= old(self).entity_handles());
        }
    }

    /// Takes the value at row `row` out of the column at position `k`, the
    /// column's last value moving into its place.
    pub fn take_value(&mut self, k: usize, row: usize) -> (r: V)
        requires
            k < old(self).columns().len(),
            row < old(self).columns()[k as int].values().len(),
        ensures
            r == old(self).columns()[k as int].values()[row as int],
            final(self).spec_id() == old(self).spec_id(),
            final(self).types() == old(self).types(),
            final(self).entity_count() == old(self).entity_count(),
            final(self).entity_handles() == old(self).entity_handles(),
            final(self).marker_columns() == old(self).marker_columns(),
            final(self).names() == old(self).names(),
            final(self).wf() == old(self).wf(),
            final(self).columns().len() == old(self).columns().len(),
            forall|j: int|
                0 <= j < old(self).columns().len() && j != k ==> #[trigger] final(self).columns()[j]
                    == old(self).columns()[j],
            final(self).columns()[k as int].spec_component() == old(self).columns()[k as int].spec_component(),
            final(self).columns()[k as int].values() == swap_removed(old(self).columns()[k as int].values(), row as int),
    {
        let ghost before = self.columns@;
        let mut col = self.columns.remove(k);
        let v = col.swap_remove_erased(row);
        self.columns.insert(k, col);
        proof {
            assert forall|j: int| 0 <= j < before.len() && j != k implies self.columns@[j] == before[j] by {
                if j < k {
                    assert(self.columns@[j] == before.remove(k as int)[j]);
                } else {
                    assert(self.columns@[j] == before.remove(k as int)[j - 1]);
                }
            }
            assert forall|j: int| 0 <= j < before.len() implies column_ids(self.columns@)[j] == column_ids(before)[j] by {
                if j != k {
                    assert(self.columns@[j] == before[j]);
                }
            }
            assert(column_ids(self.columns@) =~= column_ids(before));
            assert(self.entity_handles() =~= old(self).entity_handles());
        }
        v
    }

    /// Replaces the value at row `row` of the column at position `k`.
    pub fn set_value(&mut self, k: usize, row: usize, value: V)
        requires
            k < old(self).columns().len(),
            row < old(self).columns()[k as int].values().len(),
        ensures
            final(self).spec_id() == old(self).spec_id(),
            final(self).types() == old(self).types(),
            final(self).entity_count() == old(self).entity_count(),
            final(self).entity_handles() == old(self).entity_handles(),
            final(self).marker_columns() == old(self).marker_columns(),
            final(self).names() == old(self).names(),
            final(self).wf() == old(self).wf(),
            final(self).columns().len() == old(self).columns().len(),
            forall|j: int|
                0 <= j < old(self).columns().len() && j != k ==> #[trigger] final(self).columns()[j]
                    == old(self).columns()[j],
            final(self).columns()[k as int].spec_component() == old(self).columns()[k as int].spec_component(),
            final(self).columns()[k as int].values() == old(self).columns()[k as int].values().update(row as int, value),
    {
        let ghost before = self.columns@;
        let mut col = self.columns.remove(k);
        col.set_value(row, value);
        self.columns.insert(k, col);
        proof {
            assert forall|j: int| 0 <= j < before.len() && j != k implies self.columns@[j] == before[j] by {
                if j < k {
                    assert(self.columns@[j] == before.remove(k as int)[j]);
                } else {
                    assert(self.columns@[j] == before.remove(k as int)[j - 1]);
                }
            }
            assert forall|j: int| 0 <= j < before.len() implies column_ids(self.columns@)[j] == column_ids(before)[j] by {
                if j != k {
                    assert(self.columns@[j] == before[j]);
                }
            }
            assert(column_ids(self.columns@) =~= column_ids(before));
            assert(self.entity_handles() =~= old(self).entity_handles());
        }
    }

    /// The position of the marker column numbered `marker`, if there is one.
    pub fn marker_column_index(&self, marker: ComponentId) -> (r: Option<usize>)
        ensures
            match r {
                Some(i) => i < self.marker_columns().len() && self.marker_columns()[i as int].spec_marker_id() == marker,
                None => !marker_ids(self.marker_columns()).contains(marker),
            },
    {
        crate::filter::marker_position(self.markers.as_slice(), marker)
    }

    /// The names of the archetype's kinds.
    pub fn names_vec(&self) -> (r: Vec<&'static str>)
        ensures
            r@ == self.names(),
    {
        let mut out: Vec<&'static str> = Vec::new();
        let mut i: usize = 0;
        while i < self.type_names.len()
            invariant
                i <= self.type_names@.len(),
                out@ == self.type_names@.subrange(0, i as int),
            decreases self.type_names@.len() - i,
        {
            out.push(self.type_names[i]);
            i += 1;
            assert(out@ =~= self.type_names@.subrange(0, i as int));
        }
        assert(self.type_names@.subrange(0, self.type_names@.len() as int) =~= self.type_names@);
        out
    }

    /// The marker columns, in order.
    pub fn marker_slice(&self) -> (r: &[MarkerColumn])
        ensures
            r@ == self.marker_columns(),
    {
        self.markers.as_slice()
    }

    /// The archetype's kinds as a set.
    pub fn kind_set(&self) -> (r: AccessHashSet)
        ensures
            r@ == self.types().to_set(),
    {
        let mut set = AccessHashSet::new();
        let n = self.types.len();
        let mut i: usize = 0;
        while i < n
            invariant
                i <= n,
                n == self.types@.len(),
                set@ == self.types@.subrange(0, i as int).to_set(),
            decreases n - i,
        {
            proof {
                lemma_prefix_set_step(self.types@, i as int);
            }
            set.insert(self.types.get(i));
            i += 1;
        }
        assert(self.types@.subrange(0, n as int) =~= self.types@);
        set
    }

    /// The row bookkeeping of a new entity: its handle is appended, and
    /// every marker column gets the marker of a new row (unchanged, or
    /// added in slot `write_idx`).
    pub fn push_entity(&mut self, entity: Entity, write_idx: u8)
        requires
            write_idx < 2,
        ensures
            final(self).spec_id() == old(self).spec_id(),
            final(self).types() == old(self).types(),
            final(self).entity_count() == old(self).entity_count() + 1,
            final(self).entity_handles() == old(self).entity_handles().push(entity.index()),
            final(self).columns() == old(self).columns(),
            final(self).names() == old(self).names(),
            final(self).wf() == old(self).wf(),
            final(self).marker_columns().len() == old(self).marker_columns().len(),
            forall|k: int|
                0 <= k < old(self).marker_columns().len() ==> {
                    let a = #[trigger] final(self).marker_columns()[k];
                    let b = old(self).marker_columns()[k];
                    &&& a.spec_marker_id() == b.spec_marker_id()
                    &&& a.spec_kind() == b.spec_kind()
                    &&& a.rows() == b.rows().push(
                        if b.spec_kind() == MarkerKind::Added {
                            seq![false, false].update(write_idx as int, true)
                        } else {
                            seq![false, false]
                        },
                    )
                    &&& a.stamps() == b.stamps().push((0u8, 0u32))
                },
    {
        let ghost idx = entity.index();
        self.entities.push(entity);
        assert(self.entity_handles() =~= old(self).entity_handles().push(idx));
        let ghost start = self.markers@;
        let mut i: usize = 0;
        while i < self.markers.len()
            invariant
                i <= self.markers@.len(),
                self.markers@.len() == start.len(),
                write_idx < 2,
                start == old(self).markers@,
                self.id == old(self).id,
                self.types == old(self).types,
                self.entities@ == old(self).entities@.push(entity),
                self.columns == old(self).columns,
                self.type_names == old(self).type_names,
                forall|k: int| i <= k < start.len() ==> self.markers@[k] == start[k],
                forall|k: int|
                    0 <= k < i ==> {
                        let a = #[trigger] self.markers@[k];
                        let b = start[k];
                        &&& a.spec_marker_id() == b.spec_marker_id()
                        &&& a.spec_kind() == b.spec_kind()
                        &&& a.rows() == b.rows().push(
                            if b.spec_kind() == MarkerKind::Added {
                                seq![false, false].update(write_idx as int, true)
                            } else {
                                seq![false, false]
                            },
                        )
                        &&& a.stamps() == b.stamps().push((0u8, 0u32))
                    },
            decreases start.len() - i,
        {
            let ghost before = self.markers@;
            let mut col = self.markers.remove(i);
            col.push_default_marker(write_idx);
            self.markers.insert(i, col);
            proof {
                assert forall|k: int| 0 <= k < self.markers@.len() && k != i implies self.markers@[k]
                    == before[k] by {
                    if k < i {
                        assert(self.markers@[k] == before.remove(i as int)[k]);
                    } else {
                        assert(self.markers@[k] == before.remove(i as int)[k - 1]);
                    }
                }
            }
            i += 1;
        }
        proof {
            assert forall|k: int| 0 <= k < start.len() implies marker_ids(self.markers@)[k] == marker_ids(start)[k] by {
                assert(self.markers@[k].spec_marker_id() == start[k].spec_marker_id());
            }
            assert(marker_ids(self.markers@) =~= marker_ids(start));
        }
    }

    /// Removes the entity at row `row`, moving the last row into its place
    /// in the entity list, in every marker column and, when `columns_too`,
    /// in every column long enough to hold that row; gives back the
    /// registry position of the entity that moved into `row`, if one did.
    pub fn swap_remove_row(&mut self, row: usize, columns_too: bool) -> (moved: Option<u32>)
        requires
            row < old(self).entity_count(),
        ensures
            final(self).spec_id() == old(self).spec_id(),
            final(self).types() == old(self).types(),
            final(self).names() == old(self).names(),
            final(self).wf() == old(self).wf(),
            final(self).entity_count() == old(self).entity_count() - 1,
            final(self).entity_handles() == swap_removed(old(self).entity_handles(), row as int),
            moved == if (row as int) < old(self).entity_count() - 1 {
                Some(old(self).entity_handles().last())
            } else {
                None::<u32>
            },
            final(self).columns().len() == old(self).columns().len(),
            forall|c: int|
                0 <= c < old(self).columns().len() ==> {
                    let x = #[trigger] final(self).columns()[c];
                    let y = old(self).columns()[c];
                    &&& x.spec_component() == y.spec_component()
                    &&& x.values() == if columns_too && (row as int) < y.values().len() {
                        swap_removed(y.values(), row as int)
                    } else {
                        y.values()
                    }
                },
            final(self).marker_columns().len() == old(self).marker_columns().len(),
            forall|k: int|
                0 <= k < old(self).marker_columns().len() ==> {
                    let x = #[trigger] final(self).marker_columns()[k];
                    let y = old(self).marker_columns()[k];
                    &&& x.spec_marker_id() == y.spec_marker_id()
                    &&& x.spec_kind() == y.spec_kind()
                    &&& x.rows() == if (row as int) < y.rows().len() {
                        swap_removed(y.rows(), row as int)
                    } else {
                        y.rows()
                    }
                    &&& x.stamps() == if (row as int) < y.rows().len() {
                        swap_removed(y.stamps(), row as int)
                    } else {
                        y.stamps()
                    }
                },
    {
        let ghost h0 = self.entity_handles();
        self.entities.swap_remove(row);
        assert(self.entity_handles() =~= swap_removed(h0, row as int));
        let moved = if row < self.entities.len() {
            Some(self.entities[row].registry_idx())
        } else {
            None
        };
        let ghost cols0 = self.columns@;
        let ghost ents = self.entities@;
        let mut c: usize = 0;
        while c < self.columns.len()
            invariant
                c <= self.columns@.len(),
                self.columns@.len() == cols0.len(),
                cols0 == old(self).columns@,
                self.entities@ == ents,
                self.markers == old(self).markers,
                self.id == old(self).id,
                self.types == old(self).types,
                self.type_names == old(self).type_names,
                forall|q: int| c <= q < cols0.len() ==> self.columns@[q] == cols0[q],
                forall|q: int|
                    0 <= q < c ==> {
                        let x = #[trigger] self.columns@[q];
                        let y = cols0[q];
                        &&& x.spec_component() == y.spec_component()
                        &&& x.values() == if columns_too && (row as int) < y.values().len() {
                            swap_removed(y.values(), row as int)
                        } else {
                            y.values()
                        }
                    },
            decreases cols0.len() - c,
        {
            let ghost before = self.columns@;
            let mut col = self.columns.remove(c);
            if columns_too && row < col.len() {
                col.swap_remove_erased(row);
            }
            self.columns.insert(c, col);
            proof {
                assert forall|q: int| 0 <= q < before.len() && q != c implies self.columns@[q] == before[q] by {
                    if q < c {
                        assert(self.columns@[q] == before.remove(c as int)[q]);
                    } else {
                        assert(self.columns@[q] == before.remove(c as int)[q - 1]);
                    }
                }
            }
            c += 1;
        }
        let ghost marks0 = self.markers@;
        let ghost cols1 = self.columns@;
        let mut k: usize = 0;
        while k < self.markers.len()
            invariant
                k <= self.markers@.len(),
                self.markers@.len() == marks0.len(),
                marks0 == old(self).markers@,
                self.entities@ == ents,
                self.columns@ == cols1,
                self.id == old(self).id,
                self.types == old(self).types,
                self.type_names == old(self).type_names,
                forall|q: int| k <= q < marks0.len() ==> self.markers@[q] == marks0[q],
                forall|q: int|
                    0 <= q < k ==> {
                        let x = #[trigger] self.markers@[q];
                        let y = marks0[q];
                        &&& x.spec_marker_id() == y.spec_marker_id()
                        &&& x.spec_kind() == y.spec_kind()
                        &&& x.rows() == if (row as int) < y.rows().len() {
                            swap_removed(y.rows(), row as int)
                        } else {
                            y.rows()
                        }
                        &&& x.stamps() == if (row as int) < y.rows().len() {
                            swap_removed(y.stamps(), row as int)
                        } else {
                            y.stamps()
                        }
                    },
            decreases marks0.len() - k,
        {
            let ghost before = self.markers@;
            let mut col = self.markers.remove(k);
            if row < col.len() {
                col.swap_remove_row(row);
            }
            self.markers.insert(k, col);
            proof {
                assert forall|q: int| 0 <= q < before.len() && q != k implies self.markers@[q] == before[q] by {
                    if q < k {
                        assert(self.markers@[q] == before.remove(k as int)[q]);
                    } else {
                        assert(self.markers@[q] == before.remove(k as int)[q - 1]);
                    }
                }
            }
            k += 1;
        }
        proof {
            assert forall|q: int| 0 <= q < cols0.len() implies column_ids(self.columns@)[q] == column_ids(cols0)[q] by {
                assert(self.columns@[q].spec_component() == cols0[q].spec_component());
            }
            assert(column_ids(self.columns@) =~= column_ids(cols0));
            assert forall|q: int| 0 <= q < marks0.len() implies marker_ids(self.markers@)[q] == marker_ids(marks0)[q] by {
                assert(self.markers@[q].spec_marker_id() == marks0[q].spec_marker_id());
            }
            assert(marker_ids(self.markers@) =~= marker_ids(marks0));
        }
        moved
    }

    /// Stamps row `row` of the marker column at position `k` as written in
    /// `generation` by system `author`: what a write through a
    /// change-tracked reference records.
    pub fn stamp_row(&mut self, k: usize, row: usize, generation: u8, author: u32)
        requires
            k < old(self).marker_columns().len(),
            row < old(self).marker_columns()[k as int].rows().len(),
        ensures
            final(self).spec_id() == old(self).spec_id(),
            final(self).types() == old(self).types(),
            final(self).entity_count() == old(self).entity_count(),
            final(self).columns() == old(self).columns(),
            final(self).names() == old(self).names(),
            final(self).wf() == old(self).wf(),
            final(self).marker_columns().len() == old(self).marker_columns().len(),
            forall|j: int|
                0 <= j < old(self).marker_columns().len() && j != k ==> #[trigger] final(self).marker_columns()[j]
                    == old(self).marker_columns()[j],
            final(self).marker_columns()[k as int].spec_marker_id() == old(self).marker_columns()[k as int].spec_marker_id(),
            final(self).marker_columns()[k as int].spec_kind() == old(self).marker_columns()[k as int].spec_kind(),
            final(self).marker_columns()[k as int].rows() == old(self).marker_columns()[k as int].rows(),
            final(self).marker_columns()[k as int].stamps() == if old(self).marker_columns()[k as int].spec_kind()
                == MarkerKind::Changed {
                old(self).marker_columns()[k as int].stamps().update(row as int, (generation, author))
            } else {
                old(self).marker_columns()[k as int].stamps()
            },
    {
        let ghost before = self.markers@;
        let mut col = self.markers.remove(k);
        col.stamp(row, generation, author);
        self.markers.insert(k, col);
        proof {
            assert forall|j: int| 0 <= j < self.markers@.len() && j != k implies self.markers@[j]
                == before[j] by {
                if j < k {
                    assert(self.markers@[j] == before.remove(k as int)[j]);
                } else {
                    assert(self.markers@[j] == before.remove(k as int)[j - 1]);
                }
            }
            assert forall|j: int| 0 <= j < before.len() implies marker_ids(self.markers@)[j] == marker_ids(before)[j] by {
                if j != k {
                    assert(self.markers@[j] == before[j]);
                }
            }
            assert(marker_ids(self.markers@) =~= marker_ids(before));
        }
    }

    /// In a well-formed archetype no two columns share a kind.
    pub proof fn lemma_column_ids_unique(&self)
        requires
            self.wf(),
        ensures
            column_ids(self.columns()).no_duplicates(),
    {
    }

    /// In a well-formed archetype no two marker columns share a number.
    pub proof fn lemma_marker_ids_unique(&self)
        requires
            self.wf(),
        ensures
            marker_ids(self.marker_columns()).no_duplicates(),
    {
    }

    /// The marker column at position `i`.
    pub fn marker_column(&self, i: usize) -> (r: &MarkerColumn)
        requires
            i < self.marker_columns().len(),
        ensures
            *r == self.marker_columns()[i as int],
    {
        &self.markers[i]
    }

    /// End of frame for this archetype: clears slot `write_idx` of every
    /// marker column and the stamps that are stale in generation `current`.
    pub fn clear_markers(&mut self, write_idx: u8, current: u8)
        requires
            write_idx < 2,
        ensures
            final(self).spec_id() == old(self).spec_id(),
            final(self).types() == old(self).types(),
            final(self).entity_count() == old(self).entity_count(),
            final(self).columns() == old(self).columns(),
            final(self).names() == old(self).names(),
            final(self).wf() == old(self).wf(),
            final(self).marker_columns().len() == old(self).marker_columns().len(),
            forall|i: int|
                0 <= i < old(self).marker_columns().len() ==> #[trigger] cleared_from(
                    final(self).marker_columns()[i],
                    old(self).marker_columns()[i],
                    write_idx,
                    current,
                ),
    {
        let ghost start = self.markers@;
        let mut i: usize = 0;
        while i < self.markers.len()
            invariant
                i <= self.markers@.len(),
                self.markers@.len() == start.len(),
                write_idx < 2,
                self.id == old(self).id,
                self.types == old(self).types,
                self.entities == old(self).entities,
                self.columns == old(self).columns,
                self.type_names == old(self).type_names,
                start == old(self).markers@,
                forall|k: int| i <= k < start.len() ==> self.markers@[k] == start[k],
                forall|k: int| 0 <= k < i ==> #[trigger] cleared_from(self.markers@[k], start[k], write_idx, current),
            decreases start.len() - i,
        {
            let ghost before = self.markers@;
            let mut col = self.markers.remove(i);
            let ghost col0 = col;
            assert(col0 == start[i as int]);
            col.clear_column_markers(write_idx);
            col.clear_stale_stamps(current);
            let ghost col1 = col;
            self.markers.insert(i, col);
            proof {
                assert forall|k: int| 0 <= k < self.markers@.len() && k != i implies self.markers@[k]
                    == before[k] by {
                    if k < i {
                        assert(self.markers@[k] == before.remove(i as int)[k]);
                    } else {
                        assert(self.markers@[k] == before.remove(i as int)[k - 1]);
                    }
                }
                assert(self.markers@[i as int] == col1);
                assert(self.markers@[i as int].spec_marker_id() == start[i as int].spec_marker_id());
                assert(self.markers@[i as int].rows() == crate::reactivity::cleared(start[i as int].rows(), write_idx as int));
                assert(self.markers@[i as int].stamps() == crate::reactivity::stale_cleared(start[i as int].stamps(), current));
                assert forall|k: int| 0 <= k < i + 1 implies #[trigger] cleared_from(self.markers@[k], start[k], write_idx, current) by {
                    if k < i {
                        assert(self.markers@[k] == before[k]);
                        assert(cleared_from(before[k], start[k], write_idx, current));
                    }
                }
            }
            i += 1;
        }
        proof {
            assert forall|k: int| 0 <= k < start.len() implies marker_ids(self.markers@)[k] == marker_ids(start)[k] by {
                assert(cleared_from(self.markers@[k], start[k], write_idx, current));
            }
            assert(marker_ids(self.markers@) =~= marker_ids(start));
        }
    }
}


/// The hash of a finite set of component numbers: the combined hash of any
/// duplicate-free listing of it.
pub open spec fn set_hash(s: Set<u64>) -> u64 {
    combined_hash(choose|q: Seq<u64>| q.no_duplicates() && q.to_set() == s)
}

/// Any duplicate-free listing of a set hashes to the set's hash.
pub proof fn lemma_set_hash(q: Seq<u64>)
    requires
        q.no_duplicates(),
    ensures
        combined_hash(q) == set_hash(q.to_set()),
{
    let w = choose|w: Seq<u64>| w.no_duplicates() && w.to_set() == q.to_set();
    lemma_combined_hash_order_independent(q, w);
}

/// The component set after bringing the marker kinds in line with the
/// trackers components, one registry entry after another: a marker is
/// present exactly when its component is.
pub open spec fn synced(
    types: Set<u64>,
    trackers: Seq<(ComponentId, ComponentId, MarkerKind)>,
    k: int,
) -> Set<u64>
    decreases k,
{
    if k <= 0 {
        types
    } else {
        let s = synced(types, trackers, k - 1);
        if s.contains(trackers[k - 1].0) {
            s.insert(trackers[k - 1].1)
        } else {
            s.remove(trackers[k - 1].1)
        }
    }
}

/// The outcome of looking up or creating the archetype for hash `h`: the id,
/// and the index afterwards.
pub open spec fn lookup_or_create(index: Map<u64, ArchetypeId>, count: nat, h: u64) -> (
    ArchetypeId,
    Map<u64, ArchetypeId>,
) {
    if index.contains_key(h) {
        (index[h], index)
    } else {
        (ArchetypeId(count as u32), index.insert(h, ArchetypeId(count as u32)))
    }
}

/// Looking up or creating an archetype twice for the same component set
/// gives the same archetype and leaves the index as the first call left it.
pub proof fn lemma_lookup_or_create_idempotent(
    index: Map<u64, ArchetypeId>,
    count: nat,
    a: Seq<u64>,
    b: Seq<u64>,
)
    requires
        a.no_duplicates(),
        b.no_duplicates(),
        a.to_set() == b.to_set(),
    ensures
        ({
            let first = lookup_or_create(index, count, combined_hash(a));
            let second = lookup_or_create(first.1, count + 1, combined_hash(b));
            second.0 == first.0 && second.1 == first.1
        }),
{
    lemma_combined_hash_order_independent(a, b);
}

/// The names in `names`, each text kept at its first occurrence only.
pub open spec fn distinct_names(names: Seq<&'static str>) -> Seq<&'static str>
    decreases names.len(),
{
    if names.len() == 0 {
        Seq::empty()
    } else {
        let p = distinct_names(names.drop_last());
        if crate::app::name_seen(p, names.last()) {
            p
        } else {
            p.push(names.last())
        }
    }
}

/// `names` with every text kept at its first occurrence only.
pub fn dedup_names(names: Vec<&'static str>) -> (r: Vec<&'static str>)
    ensures
        r@ == distinct_names(names@),
{
    let mut out: Vec<&'static str> = Vec::new();
    let mut k: usize = 0;
    while k < names.len()
        invariant
            k <= names@.len(),
            out@ == distinct_names(names@.subrange(0, k as int)),
        decreases names@.len() - k,
    {
        let name = names[k];
        let mut seen = false;
        let mut j: usize = 0;
        while j < out.len()
            invariant
                j <= out@.len(),
                seen <==> exists|q: int| 0 <= q < j && crate::app::same_name(#[trigger] out@[q], name),
            decreases out@.len() - j,
        {
            if crate::app::names_equal(out[j], name) {
                seen = true;
            }
            j += 1;
        }
        proof {
            let pre = names@.subrange(0, k as int + 1);
            assert(pre.drop_last() =~= names@.subrange(0, k as int));
            assert(pre.last() == name);
            assert(seen <==> crate::app::name_seen(out@, name));
        }
        if !seen {
            out.push(name);
        }
        k += 1;
    }
    assert(names@.subrange(0, names@.len() as int) =~= names@);
    out
}

/// All archetypes, and an index from component-set hash to archetype.
pub struct ArchetypeManager<V> {
    pub(crate) index: HashMap<u64, ArchetypeId>,
    pub(crate) archetypes: Vec<Archetype<V>>,
    pub(crate) next_id: u32,
}

impl<V> ArchetypeManager<V> {
    /// The archetypes, by id.
    pub closed spec fn archetypes(&self) -> Seq<Archetype<V>> {
        self.archetypes@
    }

    pub closed spec fn spec_index(&self) -> Map<u64, ArchetypeId> {
        self.index@
    }

    /// Archetype `i` has id `i`; every index entry names an archetype whose
    /// component set has that hash; every archetype's hash is indexed.
    pub closed spec fn wf(&self) -> bool {
        &&& self.next_id as int == self.archetypes@.len()
        &&& forall|i: int|
            0 <= i < self.archetypes@.len() ==> (#[trigger] self.archetypes@[i]).spec_id().0 == i
                && self.archetypes@[i].wf()
        &&& forall|h: u64|
            #[trigger] self.index@.contains_key(h) ==> (self.index@[h].0 as int)
                < self.archetypes@.len() && combined_hash(
                self.archetypes@[self.index@[h].0 as int].types(),
            ) == h
        &&& forall|i: int|
            0 <= i < self.archetypes@.len() ==> self.index@.contains_key(
                combined_hash(#[trigger] self.archetypes@[i].types()),
            )
    }

    pub fn new() -> (r: ArchetypeManager<V>)
        ensures
            r.wf(),
            r.archetypes() == Seq::<Archetype<V>>::empty(),
            r.spec_index() == Map::<u64, ArchetypeId>::empty(),
    {
        ArchetypeManager { index: HashMap::new(), archetypes: Vec::new(), next_id: 0 }
    }

    pub fn len(&self) -> (r: usize)
        ensures
            r == self.archetypes().len(),
    {
        self.archetypes.len()
    }

    /// The exclusive-or of the Fx hashes of the set's entries; independent
    /// of their order.
    pub fn calculate_hash(&self, types: &TypeSet) -> (r: u64)
        ensures
            r == combined_hash(types@),
    {
        let mut combined: u64 = 0;
        let n = types.len();
        let mut i: usize = 0;
        while i < n
            invariant
                i <= n,
                n == types@.len(),
                combined == combined_hash(types@.subrange(0, i as int)),
            decreases n - i,
        {
            let type_id = types.get(i);
            combined = combined ^ fx_hash64(type_id);
            proof {
                let s1 = types@.subrange(0, i as int + 1);
                assert(s1.drop_last() =~= types@.subrange(0, i as int));
                assert(s1.last() == type_id);
            }
            i += 1;
        }
        assert(types@.subrange(0, n as int) =~= types@);
        combined
    }

    /// Adds each trackers component's marker kind to `types` when the
    /// component is present, and removes it otherwise, in registry order.
    pub fn sync_tracking_markers(&self, types: &mut TypeSet, trackers: &TrackedComponents)
        requires
            old(types).wf(),
        ensures
            final(types).wf(),
            final(types)@.to_set() == synced(old(types)@.to_set(), trackers@, trackers@.len() as int),
    {
        let ghost start = types@.to_set();
        let n = trackers.len();
        let mut i: usize = 0;
        while i < n
            invariant
                i <= n,
                n == trackers@.len(),
                types.wf(),
                types@.to_set() == synced(start, trackers@, i as int),
            decreases n - i,
        {
            let meta = trackers.get(i);
            if types.contains(meta.component_id) {
                types.insert(meta.marker_id);
            } else {
                types.remove(meta.marker_id);
            }
            i += 1;
        }
    }

    /// The archetype that an entity of archetype `old_id` moves to when it
    /// gains the kinds `incoming_ids`, if that archetype exists.
    pub fn find_target_id_for_addition(
        &self,
        old_id: ArchetypeId,
        incoming_ids: &[ComponentId],
        trackers: &TrackedComponents,
    ) -> (r: Option<ArchetypeId>)
        requires
            self.wf(),
        ensures
            r == if (old_id.0 as int) < self.archetypes().len() {
                let h = set_hash(
                    synced(
                        self.archetypes()[old_id.0 as int].types().to_set() + incoming_ids@.to_set(),
                        trackers@,
                        trackers@.len() as int,
                    ),
                );
                if self.spec_index().contains_key(h) {
                    Some(self.spec_index()[h])
                } else {
                    None
                }
            } else {
                None
            },
    {
        if old_id.0 as usize >= self.archetypes.len() {
            return None;
        }
        let old_arch = &self.archetypes[old_id.0 as usize];
        let mut target_types = old_arch.types.duplicate();
        let ghost base = target_types@.to_set();
        let mut k: usize = 0;
        while k < incoming_ids.len()
            invariant
                k <= incoming_ids@.len(),
                target_types.wf(),
                target_types@.to_set() == base + incoming_ids@.subrange(0, k as int).to_set(),
            decreases incoming_ids@.len() - k,
        {
            target_types.insert(incoming_ids[k]);
            proof {
                lemma_prefix_set_step(incoming_ids@, k as int);
                assert(target_types@.to_set() =~= base + incoming_ids@.subrange(0, k as int + 1).to_set());
            }
            k += 1;
        }
        assert(incoming_ids@.subrange(0, incoming_ids@.len() as int) =~= incoming_ids@);
        self.sync_tracking_markers(&mut target_types, trackers);
        let hash = self.calculate_hash(&target_types);
        proof {
            lemma_set_hash(target_types@);
        }
        match self.index.get(&hash) {
            Some(id) => Some(*id),
            None => None,
        }
    }

    /// The archetype that an entity of archetype `old_id` moves to when it
    /// loses the kinds `removed_ids`, if that archetype exists.
    pub fn find_target_id_for_subtraction(
        &self,
        old_id: ArchetypeId,
        removed_ids: &[ComponentId],
        trackers: &TrackedComponents,
    ) -> (r: Option<ArchetypeId>)
        requires
            self.wf(),
        ensures
            r == if (old_id.0 as int) < self.archetypes().len() {
                let h = set_hash(
                    synced(
                        self.archetypes()[old_id.0 as int].types().to_set().difference(
                            removed_ids@.to_set(),
                        ),
                        trackers@,
                        trackers@.len() as int,
                    ),
                );
                if self.spec_index().contains_key(h) {
                    Some(self.spec_index()[h])
                } else {
                    None
                }
            } else {
                None
            },
    {
        if old_id.0 as usize >= self.archetypes.len() {
            return None;
        }
        let old_arch = &self.archetypes[old_id.0 as usize];
        let mut target_types = old_arch.types.duplicate();
        let ghost base = target_types@.to_set();
        let mut k: usize = 0;
        while k < removed_ids.len()
            invariant
                k <= removed_ids@.len(),
                target_types.wf(),
                target_types@.to_set() == base.difference(removed_ids@.subrange(0, k as int).to_set()),
            decreases removed_ids@.len() - k,
        {
            target_types.remove(removed_ids[k]);
            proof {
                lemma_prefix_set_step(removed_ids@, k as int);
                assert(target_types@.to_set() =~= base.difference(removed_ids@.subrange(0, k as int + 1).to_set()));
            }
            k += 1;
        }
        assert(removed_ids@.subrange(0, removed_ids@.len() as int) =~= removed_ids@);
        self.sync_tracking_markers(&mut target_types, trackers);
        let hash = self.calculate_hash(&target_types);
        proof {
            lemma_set_hash(target_types@);
        }
        match self.index.get(&hash) {
            Some(id) => Some(*id),
            None => None,
        }
    }

    // Stores a new archetype for `types` under hash `hash`.
    fn add_archetype(
        &mut self,
        hash: u64,
        types: TypeSet,
        columns: Vec<ComponentColumn<V>>,
        markers: Vec<MarkerColumn>,
        type_names: Vec<&'static str>,
    ) -> (r: ArchetypeId)
        requires
            old(self).wf(),
            types.wf(),
            column_ids(columns@).no_duplicates(),
            marker_ids(markers@).no_duplicates(),
            hash == combined_hash(types@),
            !old(self).spec_index().contains_key(hash),
            old(self).archetypes().len() < u32::MAX,
        ensures
            final(self).wf(),
            r.0 == old(self).archetypes().len(),
            final(self).spec_index() == old(self).spec_index().insert(hash, r),
            final(self).archetypes().len() == old(self).archetypes().len() + 1,
            forall|i: int|
                0 <= i < old(self).archetypes().len() ==> #[trigger] final(self).archetypes()[i]
                    == old(self).archetypes()[i],
            final(self).archetypes().last().spec_id() == r,
            final(self).archetypes().last().types() == types@,
            final(self).archetypes().last().entity_count() == 0,
            final(self).archetypes().last().columns() == columns@,
            final(self).archetypes().last().marker_columns() == markers@,
            final(self).archetypes().last().names() == type_names@,
    {
        let new_id = ArchetypeId::new(self.next_id);
        self.next_id = self.next_id + 1;
        let new_arch = Archetype::new(new_id, types, columns, markers, type_names);
        self.index.insert(hash, new_id);
        self.archetypes.push(new_arch);
        proof {
            let n = self.archetypes@.len() - 1;
            assert(self.archetypes@[n] == new_arch);
            assert forall|i: int| 0 <= i < self.archetypes@.len() implies (
            #[trigger] self.archetypes@[i]).spec_id().0 == i && self.archetypes@[i].wf() by {
                if i < n {
                    assert(self.archetypes@[i] == old(self).archetypes@[i]);
                }
            }
            assert forall|h: u64| #[trigger] self.index@.contains_key(h) implies (self.index@[h].0
                as int) < self.archetypes@.len() && combined_hash(
                self.archetypes@[self.index@[h].0 as int].types(),
            ) == h by {
                if h != hash {
                    assert(old(self).index@.contains_key(h));
                    assert(self.archetypes@[self.index@[h].0 as int] == old(self).archetypes@[old(self).index@[h].0 as int]);
                }
            }
            assert forall|i: int| 0 <= i < self.archetypes@.len() implies self.index@.contains_key(
                combined_hash(#[trigger] self.archetypes@[i].types()),
            ) by {
                if i < n {
                    assert(self.archetypes@[i] == old(self).archetypes@[i]);
                }
            }
        }
        new_id
    }

    /// The archetype for exactly the component set `types_set`: the one
    /// already indexed under its hash, or a new one with no columns.
    pub fn get_or_create_from_set(
        &mut self,
        types_set: TypeSet,
        types_names_set: Vec<&'static str>,
    ) -> (r: ArchetypeId)
        requires
            old(self).wf(),
            types_set.wf(),
            old(self).archetypes().len() < u32::MAX,
        ensures
            final(self).wf(),
            (r, final(self).spec_index()) == lookup_or_create(
                old(self).spec_index(),
                old(self).archetypes().len(),
                set_hash(types_set@.to_set()),
            ),
            old(self).spec_index().contains_key(set_hash(types_set@.to_set())) ==> final(self).archetypes() == old(self).archetypes(),
            !old(self).spec_index().contains_key(set_hash(types_set@.to_set())) ==> {
                &&& final(self).archetypes().len() == old(self).archetypes().len() + 1
                &&& forall|i: int|
                    0 <= i < old(self).archetypes().len() ==> #[trigger] final(self).archetypes()[i]
                        == old(self).archetypes()[i]
                &&& final(self).archetypes().last().spec_id() == r
                &&& final(self).archetypes().last().types() == types_set@
                &&& final(self).archetypes().last().entity_count() == 0
                &&& final(self).archetypes().last().columns().len() == 0
                &&& final(self).archetypes().last().marker_columns().len() == 0
                &&& final(self).archetypes().last().names() == types_names_set@
            },
    {
        let order_independent_hash = self.calculate_hash(&types_set);
        proof {
            lemma_set_hash(types_set@);
        }
        match self.index.get(&order_independent_hash) {
            Some(id) => {
                return *id;
            },
            None => {},
        }
        let columns: Vec<ComponentColumn<V>> = Vec::new();
        let markers: Vec<MarkerColumn> = Vec::new();
        assert(column_ids(columns@) =~= Seq::<ComponentId>::empty());
        assert(marker_ids(markers@) =~= Seq::<ComponentId>::empty());
        self.add_archetype(order_independent_hash, types_set, columns, markers, types_names_set)
    }

    /// The archetype for a bundle of the kinds `incoming_ids`, together with
    /// the markers of the tracked kinds among them: the one already indexed
    /// under the hash of that set, or a new one with an empty column per
    /// bundle kind and an empty marker column per tracked kind present, and
    /// the bundle's names with repeats dropped.
    pub fn get_or_create_from_generic(
        &mut self,
        incoming_ids: &[ComponentId],
        incoming_names: Vec<&'static str>,
        trackers: &TrackedComponents,
    ) -> (r: ArchetypeId)
        requires
            old(self).wf(),
            old(self).archetypes().len() < u32::MAX,
        ensures
            final(self).wf(),
            (r, final(self).spec_index()) == lookup_or_create(
                old(self).spec_index(),
                old(self).archetypes().len(),
                set_hash(synced(incoming_ids@.to_set(), trackers@, trackers@.len() as int)),
            ),
            old(self).spec_index().contains_key(
                set_hash(synced(incoming_ids@.to_set(), trackers@, trackers@.len() as int)),
            ) ==> final(self).archetypes() == old(self).archetypes(),
            !old(self).spec_index().contains_key(
                set_hash(synced(incoming_ids@.to_set(), trackers@, trackers@.len() as int)),
            ) ==> {
                let a = final(self).archetypes().last();
                &&& final(self).archetypes().len() == old(self).archetypes().len() + 1
                &&& forall|i: int|
                    0 <= i < old(self).archetypes().len() ==> #[trigger] final(self).archetypes()[i]
                        == old(self).archetypes()[i]
                &&& a.spec_id() == r
                &&& a.types().to_set() == synced(
                    incoming_ids@.to_set(),
                    trackers@,
                    trackers@.len() as int,
                )
                &&& a.entity_count() == 0
                &&& column_ids(a.columns()).to_set() == incoming_ids@.to_set()
                &&& forall|k: int|
                    0 <= k < a.columns().len() ==> (#[trigger] a.columns()[k]).values().len() == 0
                &&& forall|k: int|
                    0 <= k < a.marker_columns().len() ==> {
                        &&& (#[trigger] a.marker_columns()[k]).rows().len() == 0
                        &&& a.types().contains(a.marker_columns()[k].spec_marker_id())
                        &&& exists|t: int|
                            0 <= t < trackers@.len() && trackers@[t].1
                                == a.marker_columns()[k].spec_marker_id() && trackers@[t].2
                                == a.marker_columns()[k].spec_kind()
                    }
                &&& forall|t: int|
                    0 <= t < trackers@.len() && a.types().contains(#[trigger] trackers@[t].1)
                        ==> marker_ids(a.marker_columns()).contains(trackers@[t].1)
                &&& a.names() == distinct_names(incoming_names@)
            },
    {
        let bundle = TypeSet::from_slice(incoming_ids);
        let mut types_set = bundle.duplicate();
        self.sync_tracking_markers(&mut types_set, trackers);
        let order_independent_hash = self.calculate_hash(&types_set);
        proof {
            lemma_set_hash(types_set@);
        }
        match self.index.get(&order_independent_hash) {
            Some(id) => {
                return *id;
            },
            None => {},
        }
        let mut columns: Vec<ComponentColumn<V>> = Vec::new();
        let nb = bundle.len();
        let mut i: usize = 0;
        while i < nb
            invariant
                i <= nb,
                nb == bundle@.len(),
                bundle.wf(),
                columns@.len() == i,
                column_ids(columns@) == bundle@.subrange(0, i as int),
                forall|k: int| 0 <= k < columns@.len() ==> (#[trigger] columns@[k]).values().len() == 0,
            decreases nb - i,
        {
            let c = bundle.get(i);
            let col = ComponentColumn::new(c);
            let ghost before = columns@;
            columns.push(col);
            proof {
                assert(columns@[i as int] == col);
                assert forall|k: int| 0 <= k < i + 1 implies column_ids(columns@)[k] == bundle@.subrange(0, i as int + 1)[k] by {
                    if k < i {
                        assert(columns@[k] == before[k]);
                        assert(column_ids(before)[k] == bundle@.subrange(0, i as int)[k]);
                    }
                }
            }
            assert(column_ids(columns@) =~= bundle@.subrange(0, i as int + 1));
            i += 1;
        }
        assert(bundle@.subrange(0, nb as int) =~= bundle@);
        let mut markers: Vec<MarkerColumn> = Vec::new();
        let nt = trackers.len();
        let mut t: usize = 0;
        while t < nt
            invariant
                t <= nt,
                nt == trackers@.len(),
                marker_ids(markers@).no_duplicates(),
                forall|k: int|
                    0 <= k < markers@.len() ==> {
                        &&& (#[trigger] markers@[k]).rows().len() == 0
                        &&& types_set@.contains(markers@[k].spec_marker_id())
                        &&& exists|t2: int|
                            0 <= t2 < trackers@.len() && trackers@[t2].1 == markers@[k].spec_marker_id()
                                && trackers@[t2].2 == markers@[k].spec_kind()
                    },
                forall|t2: int|
                    0 <= t2 < t && types_set@.contains(#[trigger] trackers@[t2].1) ==> marker_ids(
                        markers@,
                    ).contains(trackers@[t2].1),
            decreases nt - t,
        {
            let meta = trackers.get(t);
            if types_set.contains(meta.marker_id) {
                let mut present = false;
                let mut k: usize = 0;
                while k < markers.len()
                    invariant
                        k <= markers@.len(),
                        present ==> marker_ids(markers@).contains(meta.marker_id),
                        !present ==> forall|q: int| 0 <= q < k ==> markers@[q].spec_marker_id() != meta.marker_id,
                    decreases markers@.len() - k,
                {
                    if markers[k].marker_id() == meta.marker_id {
                        present = true;
                        assert(marker_ids(markers@)[k as int] == meta.marker_id);
                    }
                    k += 1;
                }
                if !present {
                    let ghost before = markers@;
                    markers.push(MarkerColumn::new(meta.marker_id, meta.kind));
                    proof {
                        assert(marker_ids(markers@) =~= marker_ids(before).push(meta.marker_id));
                        assert forall|a: int, b: int|
                            0 <= a < marker_ids(markers@).len() && 0 <= b < marker_ids(markers@).len()
                                && a != b implies marker_ids(markers@)[a] != marker_ids(markers@)[b] by {
                            if a < before.len() && b < before.len() {
                                assert(marker_ids(markers@)[a] == marker_ids(before)[a]);
                                assert(marker_ids(markers@)[b] == marker_ids(before)[b]);
                            } else if a < before.len() {
                                assert(marker_ids(markers@)[a] == before[a].spec_marker_id());
                            } else {
                                assert(marker_ids(markers@)[b] == before[b].spec_marker_id());
                            }
                        }
                        assert(marker_ids(markers@)[before.len() as int] == meta.marker_id);
                        assert forall|t2: int|
                            0 <= t2 < t && types_set@.contains(#[trigger] trackers@[t2].1) implies marker_ids(
                                markers@,
                            ).contains(trackers@[t2].1) by {
                            let q = choose|q: int| 0 <= q < marker_ids(before).len() && marker_ids(before)[q] == trackers@[t2].1;
                            assert(marker_ids(markers@)[q] == trackers@[t2].1);
                        }
                        assert forall|k2: int| 0 <= k2 < markers@.len() implies {
                            &&& (#[trigger] markers@[k2]).rows().len() == 0
                            &&& types_set@.contains(markers@[k2].spec_marker_id())
                            &&& exists|t2: int|
                                0 <= t2 < trackers@.len() && trackers@[t2].1 == markers@[k2].spec_marker_id()
                                    && trackers@[t2].2 == markers@[k2].spec_kind()
                        } by {
                            if k2 == before.len() {
                                assert(trackers@[t as int].1 == meta.marker_id);
                            } else {
                                assert(markers@[k2] == before[k2]);
                            }
                        }
                    }
                }
            }
            t += 1;
        }
        proof {
            lemma_set_hash(types_set@);
        }
        let names = dedup_names(incoming_names);
        self.add_archetype(order_independent_hash, types_set, columns, markers, names)
    }

    /// End of frame for every archetype: clears slot `write_idx` of every
    /// marker column and the stamps that are stale in generation `current`,
    /// and changes nothing else.
    pub fn clear_all_markers(&mut self, write_idx: u8, current: u8)
        requires
            old(self).wf(),
            write_idx < 2,
        ensures
            final(self).wf(),
            final(self).spec_index() == old(self).spec_index(),
            final(self).archetypes().len() == old(self).archetypes().len(),
            forall|i: int|
                0 <= i < old(self).archetypes().len() ==> {
                    let a = #[trigger] final(self).archetypes()[i];
                    let b = old(self).archetypes()[i];
                    &&& a.spec_id() == b.spec_id()
                    &&& a.types() == b.types()
                    &&& a.entity_count() == b.entity_count()
                    &&& a.columns() == b.columns()
                    &&& a.names() == b.names()
                    &&& a.marker_columns().len() == b.marker_columns().len()
                    &&& forall|k: int|
                        0 <= k < b.marker_columns().len() ==> #[trigger] cleared_from(
                            a.marker_columns()[k],
                            b.marker_columns()[k],
                            write_idx,
                            current,
                        )
                },
    {
        let ghost start = self.archetypes@;
        let n = self.archetypes.len();
        let mut i: usize = 0;
        while i < n
            invariant
                i <= n,
                n == start.len(),
                self.archetypes@.len() == n,
                write_idx < 2,
                start == old(self).archetypes@,
                self.index@ == old(self).index@,
                self.next_id == old(self).next_id,
                old(self).wf(),
                forall|k: int| i <= k < n ==> self.archetypes@[k] == start[k],
                forall|k: int|
                    0 <= k < i ==> {
                        let a = #[trigger] self.archetypes@[k];
                        let b = start[k];
                        &&& a.spec_id() == b.spec_id()
                        &&& a.types() == b.types()
                        &&& a.entity_count() == b.entity_count()
                        &&& a.columns() == b.columns()
                        &&& a.names() == b.names()
                        &&& a.wf() == b.wf()
                        &&& a.marker_columns().len() == b.marker_columns().len()
                        &&& forall|j: int|
                            0 <= j < b.marker_columns().len() ==> #[trigger] cleared_from(
                                a.marker_columns()[j],
                                b.marker_columns()[j],
                                write_idx,
                                current,
                            )
                    },
            decreases n - i,
        {
            let ghost before = self.archetypes@;
            let mut arch = self.archetypes.remove(i);
            arch.clear_markers(write_idx, current);
            self.archetypes.insert(i, arch);
            proof {
                assert forall|k: int| 0 <= k < n && k != i implies self.archetypes@[k] == before[k] by {
                    if k < i {
                        assert(self.archetypes@[k] == before.remove(i as int)[k]);
                    } else {
                        assert(self.archetypes@[k] == before.remove(i as int)[k - 1]);
                    }
                }
            }
            i += 1;
        }
        proof {
            assert forall|k: int| 0 <= k < n implies combined_hash(#[trigger] self.archetypes@[k].types())
                == combined_hash(start[k].types()) by {}
        }
    }

    /// The row bookkeeping of a new entity in archetype `id`.
    pub fn push_entity(&mut self, id: ArchetypeId, entity: Entity, write_idx: u8)
        requires
            old(self).wf(),
            (id.0 as int) < old(self).archetypes().len(),
            write_idx < 2,
        ensures
            final(self).wf(),
            final(self).spec_index() == old(self).spec_index(),
            final(self).archetypes().len() == old(self).archetypes().len(),
            forall|j: int|
                0 <= j < old(self).archetypes().len() && j != id.0 as int ==> #[trigger] final(self).archetypes()[j]
                    == old(self).archetypes()[j],
            ({
                let a = final(self).archetypes()[id.0 as int];
                let b = old(self).archetypes()[id.0 as int];
                &&& a.spec_id() == b.spec_id()
                &&& a.types() == b.types()
                &&& a.columns() == b.columns()
                &&& a.names() == b.names()
                &&& a.marker_columns().len() == b.marker_columns().len()
                &&& a.entity_count() == b.entity_count() + 1
                &&& a.entity_handles() == b.entity_handles().push(entity.index())
                &&& forall|k: int|
                    0 <= k < b.marker_columns().len() ==> {
                        let x = #[trigger] a.marker_columns()[k];
                        let y = b.marker_columns()[k];
                        &&& x.spec_marker_id() == y.spec_marker_id()
                        &&& x.spec_kind() == y.spec_kind()
                        &&& x.rows() == y.rows().push(
                            if y.spec_kind() == MarkerKind::Added {
                                seq![false, false].update(write_idx as int, true)
                            } else {
                                seq![false, false]
                            },
                        )
                        &&& x.stamps() == y.stamps().push((0u8, 0u32))
                    }
            }),
    {
        let i = id.0 as usize;
        let ghost before = self.archetypes@;
        let mut arch = self.archetypes.remove(i);
        arch.push_entity(entity, write_idx);
        self.archetypes.insert(i, arch);
        proof {
            assert forall|k: int| 0 <= k < before.len() && k != i implies self.archetypes@[k] == before[k] by {
                if k < i {
                    assert(self.archetypes@[k] == before.remove(i as int)[k]);
                } else {
                    assert(self.archetypes@[k] == before.remove(i as int)[k - 1]);
                }
            }
            assert forall|k: int| 0 <= k < before.len() implies combined_hash(#[trigger] self.archetypes@[k].types())
                == combined_hash(before[k].types()) by {
                if k != i {
                    assert(self.archetypes@[k] == before[k]);
                }
            }
        }
    }

    /// Stamps row `row` of marker column `k` of archetype `id` as written in
    /// `generation` by system `author`.
    pub fn stamp_row(&mut self, id: ArchetypeId, k: usize, row: usize, generation: u8, author: u32)
        requires
            old(self).wf(),
            (id.0 as int) < old(self).archetypes().len(),
            k < old(self).archetypes()[id.0 as int].marker_columns().len(),
            row < old(self).archetypes()[id.0 as int].marker_columns()[k as int].rows().len(),
        ensures
            final(self).wf(),
            final(self).spec_index() == old(self).spec_index(),
            final(self).archetypes().len() == old(self).archetypes().len(),
            forall|j: int|
                0 <= j < old(self).archetypes().len() && j != id.0 as int ==> #[trigger] final(self).archetypes()[j]
                    == old(self).archetypes()[j],
            ({
                let a = final(self).archetypes()[id.0 as int];
                let b = old(self).archetypes()[id.0 as int];
                &&& a.spec_id() == b.spec_id()
                &&& a.types() == b.types()
                &&& a.columns() == b.columns()
                &&& a.names() == b.names()
                &&& a.marker_columns().len() == b.marker_columns().len()
                &&& a.entity_count() == b.entity_count()
                &&& forall|j: int|
                    0 <= j < b.marker_columns().len() && j != k ==> #[trigger] a.marker_columns()[j]
                        == b.marker_columns()[j]
                &&& a.marker_columns()[k as int].spec_marker_id() == b.marker_columns()[k as int].spec_marker_id()
                &&& a.marker_columns()[k as int].spec_kind() == b.marker_columns()[k as int].spec_kind()
                &&& a.marker_columns()[k as int].rows() == b.marker_columns()[k as int].rows()
                &&& a.marker_columns()[k as int].stamps() == if b.marker_columns()[k as int].spec_kind()
                    == MarkerKind::Changed {
                    b.marker_columns()[k as int].stamps().update(row as int, (generation, author))
                } else {
                    b.marker_columns()[k as int].stamps()
                }
            }),
    {
        let i = id.0 as usize;
        let ghost before = self.archetypes@;
        let mut arch = self.archetypes.remove(i);
        arch.stamp_row(k, row, generation, author);
        self.archetypes.insert(i, arch);
        proof {
            assert forall|k: int| 0 <= k < before.len() && k != i implies self.archetypes@[k] == before[k] by {
                if k < i {
                    assert(self.archetypes@[k] == before.remove(i as int)[k]);
                } else {
                    assert(self.archetypes@[k] == before.remove(i as int)[k - 1]);
                }
            }
            assert forall|k: int| 0 <= k < before.len() implies combined_hash(#[trigger] self.archetypes@[k].types())
                == combined_hash(before[k].types()) by {
                if k != i {
                    assert(self.archetypes@[k] == before[k]);
                }
            }
        }
    }

    /// Removes row `row` of archetype `id` (see `Archetype::swap_remove_row`);
    /// every other archetype and the index are unchanged.
    pub fn swap_remove_row(&mut self, id: ArchetypeId, row: usize, columns_too: bool) -> (moved: Option<u32>)
        requires
            old(self).wf(),
            (id.0 as int) < old(self).archetypes().len(),
            row < old(self).archetypes()[id.0 as int].entity_count(),
        ensures
            final(self).wf(),
            final(self).spec_index() == old(self).spec_index(),
            final(self).archetypes().len() == old(self).archetypes().len(),
            forall|j: int|
                0 <= j < old(self).archetypes().len() && j != id.0 as int ==> #[trigger] final(self).archetypes()[j]
                    == old(self).archetypes()[j],
            ({
                let a = final(self).archetypes()[id.0 as int];
                let b = old(self).archetypes()[id.0 as int];
                &&& a.spec_id() == b.spec_id()
                &&& a.types() == b.types()
                &&& a.entity_count() == b.entity_count() - 1
                &&& a.entity_handles() == swap_removed(b.entity_handles(), row as int)
                &&& moved == if (row as int) < b.entity_count() - 1 {
                    Some(b.entity_handles().last())
                } else {
                    None::<u32>
                }
                &&& a.names() == b.names()
                &&& a.columns().len() == b.columns().len()
                &&& forall|c: int|
                    0 <= c < b.columns().len() ==> {
                        &&& (#[trigger] a.columns()[c]).spec_component() == b.columns()[c].spec_component()
                        &&& a.columns()[c].values() == if columns_too && (row as int) < b.columns()[c].values().len() {
                            swap_removed(b.columns()[c].values(), row as int)
                        } else {
                            b.columns()[c].values()
                        }
                    }
            }),
    {
        let i = id.0 as usize;
        let ghost before = self.archetypes@;
        let mut arch = self.archetypes.remove(i);
        let moved = arch.swap_remove_row(row, columns_too);
        self.archetypes.insert(i, arch);
        proof {
            assert forall|k: int| 0 <= k < before.len() && k != i implies self.archetypes@[k] == before[k] by {
                if k < i {
                    assert(self.archetypes@[k] == before.remove(i as int)[k]);
                } else {
                    assert(self.archetypes@[k] == before.remove(i as int)[k - 1]);
                }
            }
            assert forall|k: int| 0 <= k < before.len() implies combined_hash(#[trigger] self.archetypes@[k].types())
                == combined_hash(before[k].types()) by {
                if k != i {
                    assert(self.archetypes@[k] == before[k]);
                }
            }
        }
        moved
    }

    /// Takes the value at row `row` out of column `k` of archetype `id`
    /// (see `Archetype::take_value`); nothing else changes.
    pub fn take_value(&mut self, id: ArchetypeId, k: usize, row: usize) -> (r: V)
        requires
            old(self).wf(),
            (id.0 as int) < old(self).archetypes().len(),
            k < old(self).archetypes()[id.0 as int].columns().len(),
            row < old(self).archetypes()[id.0 as int].columns()[k as int].values().len(),
        ensures
            r == old(self).archetypes()[id.0 as int].columns()[k as int].values()[row as int],
            final(self).wf(),
            final(self).spec_index() == old(self).spec_index(),
            final(self).archetypes().len() == old(self).archetypes().len(),
            forall|j: int|
                0 <= j < old(self).archetypes().len() && j != id.0 as int ==> #[trigger] final(self).archetypes()[j]
                    == old(self).archetypes()[j],
            ({
                let a = final(self).archetypes()[id.0 as int];
                let b = old(self).archetypes()[id.0 as int];
                &&& a.spec_id() == b.spec_id()
                &&& a.types() == b.types()
                &&& a.entity_count() == b.entity_count()
                &&& a.entity_handles() == b.entity_handles()
                &&& a.marker_columns() == b.marker_columns()
                &&& a.names() == b.names()
                &&& a.columns().len() == b.columns().len()
                &&& forall|j: int|
                    0 <= j < b.columns().len() && j != k ==> #[trigger] a.columns()[j] == b.columns()[j]
                &&& a.columns()[k as int].spec_component() == b.columns()[k as int].spec_component()
                &&& a.columns()[k as int].values() == swap_removed(b.columns()[k as int].values(), row as int)
            }),
    {
        let i = id.0 as usize;
        let ghost before = self.archetypes@;
        let mut arch = self.archetypes.remove(i);
        let v = arch.take_value(k, row);
        self.archetypes.insert(i, arch);
        proof {
            assert forall|q: int| 0 <= q < before.len() && q != i implies self.archetypes@[q] == before[q] by {
                if q < i {
                    assert(self.archetypes@[q] == before.remove(i as int)[q]);
                } else {
                    assert(self.archetypes@[q] == before.remove(i as int)[q - 1]);
                }
            }
            assert forall|q: int| 0 <= q < before.len() implies combined_hash(#[trigger] self.archetypes@[q].types())
                == combined_hash(before[q].types()) by {
                if q != i {
                    assert(self.archetypes@[q] == before[q]);
                }
            }
        }
        v
    }

    /// Replaces the value at row `row` of column `k` of archetype `id`;
    /// nothing else changes.
    pub fn set_value(&mut self, id: ArchetypeId, k: usize, row: usize, value: V)
        requires
            old(self).wf(),
            (id.0 as int) < old(self).archetypes().len(),
            k < old(self).archetypes()[id.0 as int].columns().len(),
            row < old(self).archetypes()[id.0 as int].columns()[k as int].values().len(),
        ensures
            final(self).wf(),
            final(self).spec_index() == old(self).spec_index(),
            final(self).archetypes().len() == old(self).archetypes().len(),
            forall|j: int|
                0 <= j < old(self).archetypes().len() && j != id.0 as int ==> #[trigger] final(self).archetypes()[j]
                    == old(self).archetypes()[j],
            ({
                let a = final(self).archetypes()[id.0 as int];
                let b = old(self).archetypes()[id.0 as int];
                &&& a.spec_id() == b.spec_id()
                &&& a.types() == b.types()
                &&& a.entity_count() == b.entity_count()
                &&& a.entity_handles() == b.entity_handles()
                &&& a.marker_columns() == b.marker_columns()
                &&& a.names() == b.names()
                &&& a.columns().len() == b.columns().len()
                &&& forall|j: int|
                    0 <= j < b.columns().len() && j != k ==> #[trigger] a.columns()[j] == b.columns()[j]
                &&& a.columns()[k as int].spec_component() == b.columns()[k as int].spec_component()
                &&& a.columns()[k as int].values() == b.columns()[k as int].values().update(row as int, value)
            }),
    {
        let i = id.0 as usize;
        let ghost before = self.archetypes@;
        let mut arch = self.archetypes.remove(i);
        arch.set_value(k, row, value);
        self.archetypes.insert(i, arch);
        proof {
            assert forall|q: int| 0 <= q < before.len() && q != i implies self.archetypes@[q] == before[q] by {
                if q < i {
                    assert(self.archetypes@[q] == before.remove(i as int)[q]);
                } else {
                    assert(self.archetypes@[q] == before.remove(i as int)[q - 1]);
                }
            }
            assert forall|q: int| 0 <= q < before.len() implies combined_hash(#[trigger] self.archetypes@[q].types())
                == combined_hash(before[q].types()) by {
                if q != i {
                    assert(self.archetypes@[q] == before[q]);
                }
            }
        }
    }

    /// Appends `value` to column `k` of archetype `id`; nothing else
    /// changes.
    pub fn push_value(&mut self, id: ArchetypeId, k: usize, value: V)
        requires
            old(self).wf(),
            (id.0 as int) < old(self).archetypes().len(),
            k < old(self).archetypes()[id.0 as int].columns().len(),
        ensures
            final(self).wf(),
            final(self).spec_index() == old(self).spec_index(),
            final(self).archetypes().len() == old(self).archetypes().len(),
            forall|j: int|
                0 <= j < old(self).archetypes().len() && j != id.0 as int ==> #[trigger] final(self).archetypes()[j]
                    == old(self).archetypes()[j],
            ({
                let a = final(self).archetypes()[id.0 as int];
                let b = old(self).archetypes()[id.0 as int];
                &&& a.spec_id() == b.spec_id()
                &&& a.types() == b.types()
                &&& a.entity_count() == b.entity_count()
                &&& a.entity_handles() == b.entity_handles()
                &&& a.marker_columns() == b.marker_columns()
                &&& a.names() == b.names()
                &&& a.columns().len() == b.columns().len()
                &&& forall|j: int|
                    0 <= j < b.columns().len() && j != k ==> #[trigger] a.columns()[j] == b.columns()[j]
                &&& a.columns()[k as int].spec_component() == b.columns()[k as int].spec_component()
                &&& a.columns()[k as int].values() == b.columns()[k as int].values().push(value)
            }),
    {
        let i = id.0 as usize;
        let ghost before = self.archetypes@;
        let mut arch = self.archetypes.remove(i);
        arch.push_value(k, value);
        self.archetypes.insert(i, arch);
        proof {
            assert forall|q: int| 0 <= q < before.len() && q != i implies self.archetypes@[q] == before[q] by {
                if q < i {
                    assert(self.archetypes@[q] == before.remove(i as int)[q]);
                } else {
                    assert(self.archetypes@[q] == before.remove(i as int)[q - 1]);
                }
            }
            assert forall|q: int| 0 <= q < before.len() implies combined_hash(#[trigger] self.archetypes@[q].types())
                == combined_hash(before[q].types()) by {
                if q != i {
                    assert(self.archetypes@[q] == before[q]);
                }
            }
        }
    }

    /// The archetype at position `i`.
    pub fn at(&self, i: usize) -> (r: &Archetype<V>)
        requires
            i < self.archetypes().len(),
        ensures
            *r == self.archetypes()[i as int],
    {
        &self.archetypes[i]
    }

    /// Every indexed archetype of a well-formed manager exists.
    pub proof fn lemma_index_in_range(&self, h: u64)
        requires
            self.wf(),
        ensures
            self.spec_index().contains_key(h) ==> (self.spec_index()[h].0 as int) < self.archetypes().len(),
    {
    }

    /// Every archetype of a well-formed manager is well formed and carries
    /// its position as id.
    pub proof fn lemma_archetypes_wf(&self)
        requires
            self.wf(),
        ensures
            forall|i: int|
                0 <= i < self.archetypes().len() ==> (#[trigger] self.archetypes()[i]).wf()
                    && self.archetypes()[i].spec_id().0 == i,
            self.archetypes().len() <= u32::MAX,
    {
    }

    /// The archetype at `id`, if there is one.
    pub fn get(&self, id: ArchetypeId) -> (r: Option<&Archetype<V>>)
        ensures
            match r {
                Some(a) => (id.0 as int) < self.archetypes().len() && *a == self.archetypes()[id.0 as int],
                None => (id.0 as int) >= self.archetypes().len(),
            },
    {
        if (id.0 as usize) < self.archetypes.len() {
            Some(&self.archetypes[id.0 as usize])
        } else {
            None
        }
    }
}

proof fn lemma_prefix_set_step(s: Seq<u64>, k: int)
    requires
        0 <= k < s.len(),
    ensures
        s.subrange(0, k + 1).to_set() == s.subrange(0, k).to_set().insert(s[k]),
{
    let s0 = s.subrange(0, k);
    let s1 = s.subrange(0, k + 1);
    assert forall|y: u64| s1.contains(y) <==> (s0.contains(y) || y == s[k]) by {
        if s1.contains(y) {
            let j = choose|j: int| 0 <= j < s1.len() && s1[j] == y;
            if j < k {
                assert(s0[j] == y);
            }
        }
        if s0.contains(y) {
            let j = choose|j: int| 0 <= j < s0.len() && s0[j] == y;
            assert(s1[j] == y);
        }
        if y == s[k] {
            assert(s1[k] == y);
        }
    }
    assert(s1.to_set() =~= s0.to_set().insert(s[k]));
}

} // verus!
