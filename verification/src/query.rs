//! Queries: the archetypes whose kinds cover a query's data and pass its
//! filter, and the rows of each that the filter keeps.
use crate::archetypes::{column_ids, marker_ids, Archetype, ArchetypeId, ArchetypeManager};
use crate::entity::Entity;
use crate::filter::{QueryFilter, With, Without};
use crate::reactivity::{stamp_seen, ChangedTracker, ReadContext, TrackedComponents};
use crate::registry::Registry;
use crate::validation::{ComponentId, ParamAccess};
use vstd::prelude::*;

verus! {

/// Marks a view whose rows may be written.
pub struct Mutable;

/// Marks a view whose rows are only read.
pub struct ReadOnly;

/// The rows `0, 1, ..., n - 1`.
pub open spec fn all_rows(n: nat) -> Seq<usize> {
    Seq::new(n, |i: int| i as usize)
}

/// Every kind of `data` occurs in `types`.
pub open spec fn holds_all(types: Seq<ComponentId>, data: Seq<ComponentId>) -> bool {
    forall|k: int| 0 <= k < data.len() ==> types.contains(#[trigger] data[k])
}

/// A query over `data` with `filter` visits archetype `a`.
pub open spec fn archetype_matches<V, F: QueryFilter>(a: Archetype<V>, data: Seq<ComponentId>, filter: F) -> bool {
    holds_all(a.types(), data) && filter.spec_matches(a.types().to_set())
}

/// The positions whose flag is set, in increasing order.
pub open spec fn matched_ids(m: Seq<bool>) -> Seq<u32> {
    Seq::new(m.len(), |i: int| i as u32).filter(|i: u32| (i as int) < m.len() && m[i as int])
}

/// For every archetype, by id: whether the query visits it, and the rows
/// it keeps there.
pub struct Query {
    pub(crate) matching: Vec<bool>,
    pub(crate) cached_indices: Vec<Vec<usize>>,
}

/// The rows a query keeps in one archetype.
pub struct QueryArchetypeView<'a> {
    pub(crate) archetype: u32,
    pub(crate) indices: &'a [usize],
}

impl<'a> QueryArchetypeView<'a> {
    pub closed spec fn spec_archetype(&self) -> u32 {
        self.archetype
    }

    pub closed spec fn spec_indices(&self) -> Seq<usize> {
        self.indices@
    }

    /// The id of the archetype.
    pub fn archetype(&self) -> (r: u32)
        ensures
            r == self.spec_archetype(),
    {
        self.archetype
    }

    /// The kept rows, in increasing order.
    pub fn indices(&self) -> (r: &[usize])
        ensures
            r@ == self.spec_indices(),
    {
        self.indices
    }

    pub fn len(&self) -> (r: usize)
        ensures
            r == self.spec_indices().len(),
    {
        self.indices.len()
    }

    pub fn is_empty(&self) -> (r: bool)
        ensures
            r == (self.spec_indices().len() == 0),
    {
        self.len() == 0
    }
}

/// Whether `types` covers every kind of `data`.
fn covers<V>(a: &Archetype<V>, data: &[ComponentId]) -> (r: bool)
    ensures
        r == holds_all(a.types(), data@),
{
    let mut k: usize = 0;
    while k < data.len()
        invariant
            k <= data@.len(),
            forall|j: int| 0 <= j < k ==> a.types().contains(#[trigger] data@[j]),
        decreases data@.len() - k,
    {
        if !a.has_type(data[k]) {
            return false;
        }
        k += 1;
    }
    true
}

/// The rows `0, 1, ..., n - 1`.
fn row_range(n: usize) -> (r: Vec<usize>)
    ensures
        r@ == all_rows(n as nat),
{
    let mut v: Vec<usize> = Vec::new();
    let mut i: usize = 0;
    while i < n
        invariant
            i <= n,
            v@ == all_rows(i as nat),
        decreases n - i,
    {
        v.push(i);
        i += 1;
        assert(v@ =~= all_rows(i as nat));
    }
    v
}

/// How a query reaches one component kind in one archetype: the position
/// of its column, of the change-marker column that tracks it, and what the
/// reading system brings (its id, its last-run generation, the current
/// generation and addition slot).
pub struct ComponentFetch {
    pub column: Option<usize>,
    pub marker: Option<usize>,
    pub ctx: ReadContext,
}

/// Locates the column of `component` in `archetype`, and the marker column
/// numbered `marker` when the component's column is there, for the reader
/// `ctx`.
pub fn init_fetch<V>(archetype: &Archetype<V>, component: ComponentId, marker: ComponentId, ctx: &ReadContext) -> (r: ComponentFetch)
    ensures
        r.ctx == *ctx,
        match r.column {
            Some(i) => i < archetype.columns().len() && archetype.columns()[i as int].spec_component() == component,
            None => !column_ids(archetype.columns()).contains(component),
        },
        r.column is None ==> r.marker is None,
        r.column is Some ==> match r.marker {
            Some(k) => k < archetype.marker_columns().len() && archetype.marker_columns()[k as int].spec_marker_id()
                == marker,
            None => !marker_ids(archetype.marker_columns()).contains(marker),
        },
{
    match archetype.fetch_column_raw_opt(component) {
        Some(i) => ComponentFetch { column: Some(i), marker: archetype.marker_column_index(marker), ctx: *ctx },
        None => ComponentFetch { column: None, marker: None, ctx: *ctx },
    }
}

/// The value of row `row` through `fetch`, or nothing when the archetype
/// lacks the component.
pub fn fetch_read_only<'a, V>(archetype: &'a Archetype<V>, fetch: &ComponentFetch, row: usize) -> (r: Option<&'a V>)
    requires
        match fetch.column {
            Some(i) => i < archetype.columns().len() && row < archetype.columns()[i as int].values().len(),
            None => true,
        },
    ensures
        match fetch.column {
            Some(i) => r == Some(&archetype.columns()[i as int].values()[row as int]),
            None => r is None,
        },
{
    match fetch.column {
        Some(i) => Some(archetype.column_at(i).get(row)),
        None => None,
    }
}

/// Whether the reader of `fetch` has yet to see the last write of row
/// `row`; an untracked component never reports a change.
pub fn fetch_changed<V>(archetype: &Archetype<V>, fetch: &ComponentFetch, row: usize) -> (r: bool)
    requires
        match fetch.marker {
            Some(k) => k < archetype.marker_columns().len() && row < archetype.marker_columns()[k as int].rows().len(),
            None => true,
        },
    ensures
        r == match fetch.marker {
            Some(k) => stamp_seen(archetype.marker_columns()[k as int].stamps()[row as int], fetch.ctx),
            None => false,
        },
{
    match fetch.marker {
        Some(k) => ChangedTracker::fetch(archetype.marker_column(k), row, &fetch.ctx).is_changed(),
        None => false,
    }
}

impl Query {
    /// Whether each archetype is visited, by id.
    pub closed spec fn matches(&self) -> Seq<bool> {
        self.matching@
    }

    /// The kept rows of each archetype, by id.
    pub closed spec fn rows(&self) -> Seq<Seq<usize>> {
        Seq::new(self.cached_indices@.len(), |i: int| self.cached_indices@[i]@)
    }

    pub closed spec fn wf(&self) -> bool {
        self.matching@.len() == self.cached_indices@.len()
    }

    /// Visits every archetype of `manager` that holds all kinds of `data`
    /// and passes `filter`, keeping there the rows that `filter` keeps,
    /// as the reader `ctx` sees the markers.
    pub fn new<V, F: QueryFilter>(
        manager: &ArchetypeManager<V>,
        data: &[ComponentId],
        filter: &F,
        ctx: &ReadContext,
    ) -> (r: Query)
        requires
            manager.wf(),
            ctx.read_slot < 2,
        ensures
            r.wf(),
            r.matches().len() == manager.archetypes().len(),
            forall|i: int|
                0 <= i < manager.archetypes().len() ==> #[trigger] r.matches()[i] == archetype_matches(
                    manager.archetypes()[i],
                    data@,
                    *filter,
                ),
            forall|i: int|
                0 <= i < manager.archetypes().len() ==> #[trigger] r.rows()[i] == if r.matches()[i] {
                    filter.spec_filter_rows(
                        manager.archetypes()[i].marker_columns(),
                        all_rows(manager.archetypes()[i].entity_count()),
                        *ctx,
                    )
                } else {
                    Seq::<usize>::empty()
                },
    {
        proof {
            manager.lemma_archetypes_wf();
        }
        let n = manager.len();
        let mut matching: Vec<bool> = Vec::new();
        let mut cached_indices: Vec<Vec<usize>> = Vec::new();
        let mut i: usize = 0;
        while i < n
            invariant
                i <= n,
                n == manager.archetypes().len(),
                ctx.read_slot < 2,
                forall|j: int| 0 <= j < n ==> (#[trigger] manager.archetypes()[j]).wf(),
                matching@.len() == i,
                cached_indices@.len() == i,
                forall|j: int|
                    0 <= j < i ==> #[trigger] matching@[j] == archetype_matches(
                        manager.archetypes()[j],
                        data@,
                        *filter,
                    ),
                forall|j: int|
                    0 <= j < i ==> #[trigger] cached_indices@[j]@ == if matching@[j] {
                        filter.spec_filter_rows(
                            manager.archetypes()[j].marker_columns(),
                            all_rows(manager.archetypes()[j].entity_count()),
                            *ctx,
                        )
                    } else {
                        Seq::<usize>::empty()
                    },
            decreases n - i,
        {
            let arch = manager.at(i);
            let types = arch.kind_set();
            let visit = covers(arch, data) && filter.matches(&types);
            if visit {
                proof {
                    arch.lemma_marker_ids_unique();
                }
                let mut indices = row_range(arch.len());
                filter.filter_indices(arch.marker_slice(), &mut indices, ctx);
                matching.push(true);
                cached_indices.push(indices);
            } else {
                matching.push(false);
                cached_indices.push(Vec::new());
            }
            i += 1;
        }
        let r = Query { matching, cached_indices };
        assert forall|i: int| 0 <= i < n implies #[trigger] r.rows()[i] == r.cached_indices@[i]@ by {}
        r
    }

    /// The kept rows of archetype `id`, if the query visits it.
    pub fn archetype_rows(&self, id: usize) -> (r: Option<&[usize]>)
        requires
            self.wf(),
        ensures
            match r {
                Some(rows) => id < self.matches().len() && self.matches()[id as int] && rows@
                    == self.rows()[id as int],
                None => id >= self.matches().len() || !self.matches()[id as int],
            },
    {
        if id < self.matching.len() && self.matching[id] {
            Some(self.cached_indices[id].as_slice())
        } else {
            None
        }
    }

    /// One view per visited archetype, in increasing id order.
    pub fn iter(&self) -> (r: Vec<QueryArchetypeView<'_>>)
        requires
            self.wf(),
            self.matches().len() <= u32::MAX + 1,
        ensures
            r@.len() == matched_ids(self.matches()).len(),
            forall|k: int|
                0 <= k < r@.len() ==> (#[trigger] r@[k]).spec_archetype() == matched_ids(self.matches())[k]
                    && r@[k].spec_indices() == self.rows()[r@[k].spec_archetype() as int],
    {
        let ghost m = self.matching@;
        let ghost all = Seq::new(m.len(), |i: int| i as u32);
        let ghost pred = |i: u32| (i as int) < m.len() && m[i as int];
        let mut views: Vec<QueryArchetypeView<'_>> = Vec::new();
        let mut i: usize = 0;
        while i < self.matching.len()
            invariant
                i <= m.len(),
                m == self.matching@,
                m.len() <= u32::MAX + 1,
                self.wf(),
                all == Seq::new(m.len(), |i: int| i as u32),
                pred == (|i: u32| (i as int) < m.len() && m[i as int]),
                views@.len() == all.subrange(0, i as int).filter(pred).len(),
                forall|k: int|
                    0 <= k < views@.len() ==> (#[trigger] views@[k]).archetype == all.subrange(
                        0,
                        i as int,
                    ).filter(pred)[k] && views@[k].indices@ == self.cached_indices@[views@[k].archetype as int]@,
            decreases m.len() - i,
        {
            proof {
                assert(all.subrange(0, i as int + 1).drop_last() == all.subrange(0, i as int));
                reveal(Seq::filter);
                assert(all[i as int] == i as u32);
            }
            if self.matching[i] {
                views.push(QueryArchetypeView { archetype: i as u32, indices: self.cached_indices[i].as_slice() });
            }
            i += 1;
        }
        assert(all.subrange(0, m.len() as int) == all);
        views
    }

    /// The position of `entity` (archetype and row) when the query visits
    /// its archetype. The filter's row selection is not consulted.
    pub fn get(&self, registry: &Registry, entity: &Entity) -> (r: Option<(ArchetypeId, u32)>)
        requires
            self.wf(),
            (entity.index() as int) < registry@.len(),
        ensures
            ({
                let cell = registry@[entity.index() as int];
                let a = cell.archetype_id.0 as int;
                r == if a < self.matches().len() && self.matches()[a] {
                    Some((cell.archetype_id, cell.idx))
                } else {
                    None
                }
            }),
    {
        let cell = registry.get(entity.registry_idx() as usize);
        let a = cell.archetype_id.0 as usize;
        if a < self.matching.len() && self.matching[a] {
            Some((cell.archetype_id, cell.idx))
        } else {
            None
        }
    }

    /// What a query over `reads` and `writes` with `filter` accesses; the
    /// components whose markers the filter reads are registered in
    /// `trackers`.
    pub fn get_access<F: QueryFilter>(
        reads: &[ComponentId],
        writes: &[ComponentId],
        filter: &F,
        trackers: &mut TrackedComponents,
    ) -> (r: ParamAccess)
        ensures
            r.reads@ == reads@,
            r.writes@ == writes@,
            r.with_filters@ == filter.spec_withs(),
            r.without_filters@ == filter.spec_withouts(),
            r.res_reads@.len() == 0,
            r.res_writes@.len() == 0,
            final(trackers)@ == filter.spec_register(old(trackers)@),
    {
        let mut access = ParamAccess::new();
        let mut k: usize = 0;
        while k < reads.len()
            invariant
                k <= reads@.len(),
                access.reads@ == reads@.subrange(0, k as int),
                access.writes@.len() == 0,
                access.with_filters@.len() == 0,
                access.without_filters@.len() == 0,
                access.res_reads@.len() == 0,
                access.res_writes@.len() == 0,
            decreases reads@.len() - k,
        {
            access.reads.push(reads[k]);
            k += 1;
            assert(access.reads@ =~= reads@.subrange(0, k as int));
        }
        k = 0;
        while k < writes.len()
            invariant
                k <= writes@.len(),
                access.reads@ == reads@,
                access.writes@ == writes@.subrange(0, k as int),
                access.with_filters@.len() == 0,
                access.without_filters@.len() == 0,
                access.res_reads@.len() == 0,
                access.res_writes@.len() == 0,
            decreases writes@.len() - k,
        {
            access.writes.push(writes[k]);
            k += 1;
            assert(access.writes@ =~= writes@.subrange(0, k as int));
        }
        assert(reads@.subrange(0, reads@.len() as int) =~= reads@);
        assert(writes@.subrange(0, writes@.len() as int) =~= writes@);
        filter.collect_filter(&mut access.with_filters, &mut access.without_filters, trackers);
        assert(access.with_filters@ =~= filter.spec_withs());
        assert(access.without_filters@ =~= filter.spec_withouts());
        access
    }
}


/// A query visits an archetype exactly when the archetype holds every kind
/// the query asks for and the filter admits the archetype's kinds: an
/// archetype lacking one of the asked kinds is never visited, whatever the
/// filter; with a `With(x)` filter it is visited exactly when it also holds
/// `x`, and with a `Without(x)` filter exactly when it does not.
pub proof fn lemma_query_visits<V, F: QueryFilter>(
    a: Archetype<V>,
    data: Seq<ComponentId>,
    filter: F,
    x: ComponentId,
)
    ensures
        data.contains(x) && !a.types().contains(x) ==> !archetype_matches(a, data, filter),
        holds_all(a.types(), data) ==> (archetype_matches(a, data, filter) <==> filter.spec_matches(
            a.types().to_set(),
        )),
        !filter.spec_matches(a.types().to_set()) ==> !archetype_matches(a, data, filter),
        archetype_matches(a, data, With(x)) <==> (holds_all(a.types(), data) && a.types().contains(x)),
        archetype_matches(a, data, Without(x)) <==> (holds_all(a.types(), data) && !a.types().contains(x)),
{
    if data.contains(x) && !a.types().contains(x) {
        let k = choose|k: int| 0 <= k < data.len() && data[k] == x;
        assert(!a.types().contains(data[k]));
    }
}

/// The row ranges `[start, end)` that splitting `len` rows into chunks of
/// `chunk_size` gives: chunk `k` starts at `k * chunk_size` and ends
/// `chunk_size` rows later or at `len`, whichever comes first.
pub fn chunk_bounds(len: usize, chunk_size: usize) -> (r: Vec<(usize, usize)>)
    requires
        chunk_size > 0,
    ensures
        forall|k: int|
            0 <= k < r@.len() ==> (#[trigger] r@[k]).0 == k * chunk_size && r@[k].1 == if k * chunk_size
                + chunk_size <= len {
                k * chunk_size + chunk_size
            } else {
                len as int
            },
        r@.len() * chunk_size >= len,
        r@.len() == 0 || (r@.len() - 1) * chunk_size < len,
{
    let mut out: Vec<(usize, usize)> = Vec::new();
    let mut start: usize = 0;
    while start < len
        invariant
            chunk_size > 0,
            start == out@.len() * chunk_size,
            start <= len || (out@.len() > 0 && start - chunk_size < len),
            out@.len() == 0 || (out@.len() - 1) * chunk_size < len,
            forall|k: int|
                0 <= k < out@.len() ==> (#[trigger] out@[k]).0 == k * chunk_size && out@[k].1 == if k
                    * chunk_size + chunk_size <= len {
                    k * chunk_size + chunk_size
                } else {
                    len as int
                },
        decreases len - start,
    {
        let end = if len - start > chunk_size {
            start + chunk_size
        } else {
            len
        };
        let ghost k = out@.len();
        out.push((start, end));
        proof {
            assert((k + 1) * chunk_size == k * chunk_size + chunk_size) by (nonlinear_arith);
        }
        if end == len {
            proof {
                assert(out@.len() * chunk_size >= len);
            }
            return out;
        }
        start = end;
    }
    out
}

} // verus!
