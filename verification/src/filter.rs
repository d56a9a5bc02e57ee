//! Query filters: which archetypes a query visits, which filter columns it
//! declares for access checking, and which rows of a visited archetype it
//! keeps.
use crate::archetypes::marker_ids;
use crate::reactivity::{is_tracked, stamp_seen, MarkerColumn, MarkerKind, ReadContext, TrackedComponents};
use crate::validation::{AccessHashSet, AccessVec, ComponentId};
use vstd::prelude::*;

verus! {

/// One entry of the tracked-component registry: component, marker, kind.
pub type TrackedEntry = (ComponentId, ComponentId, MarkerKind);

/// The registry after registering `component` with marker `marker` of
/// kind `kind`: a component already registered for that kind keeps its
/// first entry.
pub open spec fn registered(
    t: Seq<TrackedEntry>,
    component: ComponentId,
    marker: ComponentId,
    kind: MarkerKind,
) -> Seq<TrackedEntry> {
    if is_tracked(t, component, kind) {
        t
    } else {
        t.push((component, marker, kind))
    }
}

/// Row `row` has slot `read` set in the marker column numbered `marker`.
pub open spec fn row_marked(markers: Seq<MarkerColumn>, marker: ComponentId, row: usize, read: u8) -> bool {
    exists|i: int|
        0 <= i < markers.len() && #[trigger] markers[i].spec_marker_id() == marker
            && (row as int) < markers[i].rows().len() && markers[i].rows()[row as int][read as int]
}

/// Row `row` carries, in the marker column numbered `marker`, a stamp that
/// the reader `ctx` sees.
pub open spec fn row_stamped(markers: Seq<MarkerColumn>, marker: ComponentId, row: usize, ctx: ReadContext) -> bool {
    exists|i: int|
        0 <= i < markers.len() && #[trigger] markers[i].spec_marker_id() == marker
            && (row as int) < markers[i].rows().len() && stamp_seen(markers[i].stamps()[row as int], ctx)
}

/// A query filter. `matches` decides on an archetype's set of kinds;
/// `collect_filter` declares the filter's columns for access checking and
/// registers the components whose markers it reads; `filter_indices` keeps
/// the rows of a matching archetype that pass the filter.
pub trait QueryFilter {
    spec fn spec_matches(&self, types: Set<ComponentId>) -> bool;

    spec fn spec_matches_negated(&self, types: Set<ComponentId>) -> bool;

    spec fn spec_withs(&self) -> Seq<ComponentId>;

    spec fn spec_withouts(&self) -> Seq<ComponentId>;

    spec fn spec_register(&self, t: Seq<TrackedEntry>) -> Seq<TrackedEntry>;

    spec fn spec_filter_rows(&self, markers: Seq<MarkerColumn>, rows: Seq<usize>, ctx: ReadContext) -> Seq<usize>;

    fn matches(&self, types: &AccessHashSet) -> (r: bool)
        ensures
            r == self.spec_matches(types@),
    ;

    fn matches_negated(&self, types: &AccessHashSet) -> (r: bool)
        ensures
            r == self.spec_matches_negated(types@),
    ;

    fn collect_filter(
        &self,
        withs: &mut AccessVec<ComponentId>,
        withouts: &mut AccessVec<ComponentId>,
        trackers: &mut TrackedComponents,
    )
        ensures
            final(withs)@ == old(withs)@ + self.spec_withs(),
            final(withouts)@ == old(withouts)@ + self.spec_withouts(),
            final(trackers)@ == self.spec_register(old(trackers)@),
    ;

    fn filter_indices(&self, markers: &[MarkerColumn], indices: &mut Vec<usize>, ctx: &ReadContext)
        requires
            ctx.read_slot < 2,
            marker_ids(markers@).no_duplicates(),
        ensures
            final(indices)@ == self.spec_filter_rows(markers@, old(indices)@, *ctx),
    ;
}

/// Filters whose decision rests on the set of kinds alone.
pub trait StructuralQueryFilter: QueryFilter {

}

/// Keeps the entries of `indices` whose row has slot `read_idx` set in the
/// marker column numbered `marker`, in their order.
fn retain_marked(markers: &[MarkerColumn], marker: ComponentId, indices: &mut Vec<usize>, read_idx: u8)
    requires
        read_idx < 2,
        marker_ids(markers@).no_duplicates(),
    ensures
        final(indices)@ == old(indices)@.filter(|r: usize| row_marked(markers@, marker, r, read_idx)),
{
    let ghost pred = |r: usize| row_marked(markers@, marker, r, read_idx);
    let ghost start = indices@;
    let pos = marker_position(markers, marker);
    let mut kept: Vec<usize> = Vec::new();
    let mut k: usize = 0;
    while k < indices.len()
        invariant
            k <= start.len(),
            indices@ == start,
            read_idx < 2,
            marker_ids(markers@).no_duplicates(),
            pred == (|r: usize| row_marked(markers@, marker, r, read_idx)),
            match pos {
                Some(i) => i < markers@.len() && markers@[i as int].spec_marker_id() == marker,
                None => !marker_ids(markers@).contains(marker),
            },
            kept@ == start.subrange(0, k as int).filter(pred),
        decreases start.len() - k,
    {
        let row = indices[k];
        proof {
            assert(start.subrange(0, k as int + 1).drop_last() == start.subrange(0, k as int));
            reveal(Seq::filter);
        }
        let keep = match pos {
            Some(i) => {
                let col = &markers[i];
                if row < col.len() {
                    col.is_set(row, read_idx)
                } else {
                    false
                }
            },
            None => false,
        };
        proof {
            let cols = markers@;
            if keep {
                let i = pos.unwrap() as int;
                assert(cols[i].spec_marker_id() == marker);
                assert(pred(row));
            } else if pred(row) {
                let j = choose|j: int|
                    0 <= j < cols.len() && #[trigger] cols[j].spec_marker_id() == marker
                        && (row as int) < cols[j].rows().len() && cols[j].rows()[row as int][read_idx as int];
                assert(marker_ids(cols)[j] == marker);
                match pos {
                    Some(i) => {
                        assert(marker_ids(cols)[i as int] == marker);
                        assert(j == i as int);
                    },
                    None => {},
                }
            }
        }
        if keep {
            kept.push(row);
        }
        k += 1;
    }
    assert(start.subrange(0, start.len() as int) == start);
    *indices = kept;
}

/// Keeps the entries of `indices` whose row carries, in the marker column
/// numbered `marker`, a stamp that the reader `ctx` sees, in their order.
fn retain_stamped(markers: &[MarkerColumn], marker: ComponentId, indices: &mut Vec<usize>, ctx: &ReadContext)
    requires
        marker_ids(markers@).no_duplicates(),
    ensures
        final(indices)@ == old(indices)@.filter(|r: usize| row_stamped(markers@, marker, r, *ctx)),
{
    let ghost pred = |r: usize| row_stamped(markers@, marker, r, *ctx);
    let ghost start = indices@;
    let pos = marker_position(markers, marker);
    let previous = crate::generation::GenerationRing::previous(ctx.generation);
    let mut kept: Vec<usize> = Vec::new();
    let mut k: usize = 0;
    while k < indices.len()
        invariant
            k <= start.len(),
            indices@ == start,
            marker_ids(markers@).no_duplicates(),
            previous == crate::generation::previous_generation(ctx.generation),
            pred == (|r: usize| row_stamped(markers@, marker, r, *ctx)),
            match pos {
                Some(i) => i < markers@.len() && markers@[i as int].spec_marker_id() == marker,
                None => !marker_ids(markers@).contains(marker),
            },
            kept@ == start.subrange(0, k as int).filter(pred),
        decreases start.len() - k,
    {
        let row = indices[k];
        proof {
            assert(start.subrange(0, k as int + 1).drop_last() == start.subrange(0, k as int));
            reveal(Seq::filter);
        }
        let keep = match pos {
            Some(i) => {
                let col = &markers[i];
                if row < col.len() {
                    let st = col.stamp_of(row);
                    crate::generation::detect_changed(st.0, st.1, ctx.generation, ctx.last_run, previous, ctx.system_id)
                } else {
                    false
                }
            },
            None => false,
        };
        proof {
            let cols = markers@;
            if keep {
                let i = pos.unwrap() as int;
                assert(cols[i].spec_marker_id() == marker);
                assert(pred(row));
            } else if pred(row) {
                let j = choose|j: int|
                    0 <= j < cols.len() && #[trigger] cols[j].spec_marker_id() == marker
                        && (row as int) < cols[j].rows().len() && stamp_seen(cols[j].stamps()[row as int], *ctx);
                assert(marker_ids(cols)[j] == marker);
                match pos {
                    Some(i) => {
                        assert(marker_ids(cols)[i as int] == marker);
                        assert(j == i as int);
                    },
                    None => {},
                }
            }
        }
        if keep {
            kept.push(row);
        }
        k += 1;
    }
    assert(start.subrange(0, start.len() as int) == start);
    *indices = kept;
}

/// The position of the marker column numbered `marker`, if there is one.
pub(crate) fn marker_position(markers: &[MarkerColumn], marker: ComponentId) -> (r: Option<usize>)
    ensures
        match r {
            Some(i) => i < markers@.len() && markers@[i as int].spec_marker_id() == marker,
            None => !marker_ids(markers@).contains(marker),
        },
{
    let mut i: usize = 0;
    while i < markers.len()
        invariant
            i <= markers@.len(),
            forall|k: int| 0 <= k < i ==> markers@[k].spec_marker_id() != marker,
        decreases markers@.len() - i,
    {
        if markers[i].marker_id() == marker {
            return Some(i);
        }
        i += 1;
    }
    proof {
        if marker_ids(markers@).contains(marker) {
            let k = choose|k: int| 0 <= k < markers@.len() && marker_ids(markers@)[k] == marker;
            assert(markers@[k].spec_marker_id() == marker);
        }
    }
    None
}

/// The entries of `a` that also occur in `b`, in the order of `a`.
pub open spec fn common(a: Seq<ComponentId>, b: Seq<ComponentId>) -> Seq<ComponentId> {
    a.filter(|f: ComponentId| b.contains(f))
}

/// Appends to `dst` the entries of `a` that also occur in `b`, in order.
fn push_common(dst: &mut AccessVec<ComponentId>, a: &AccessVec<ComponentId>, b: &AccessVec<ComponentId>)
    ensures
        final(dst)@ == old(dst)@ + common(a@, b@),
{
    let ghost pred = |f: ComponentId| b@.contains(f);
    let s = a.as_slice();
    let t = b.as_slice();
    let mut k: usize = 0;
    while k < s.len()
        invariant
            k <= s@.len(),
            s@ == a@,
            t@ == b@,
            pred == (|f: ComponentId| b@.contains(f)),
            dst@ == old(dst)@ + a@.subrange(0, k as int).filter(pred),
        decreases s@.len() - k,
    {
        let f = s[k];
        let mut found = false;
        let mut j: usize = 0;
        while j < t.len()
            invariant
                j <= t@.len(),
                t@ == b@,
                found ==> b@.contains(f),
                !found ==> forall|q: int| 0 <= q < j ==> t@[q] != f,
            decreases t@.len() - j,
        {
            if t[j] == f {
                found = true;
                assert(b@[j as int] == f);
            }
            j += 1;
        }
        proof {
            assert(a@.subrange(0, k as int + 1).drop_last() == a@.subrange(0, k as int));
            reveal(Seq::filter);
            assert(found == pred(f));
        }
        if found {
            dst.push(f);
        }
        k += 1;
    }
    assert(a@.subrange(0, a@.len() as int) == a@);
}

/// Collects a filter's declared kinds into fresh lists.
fn collect_apart<F: QueryFilter>(f: &F, trackers: &mut TrackedComponents) -> (r: (AccessVec<ComponentId>, AccessVec<ComponentId>))
    ensures
        r.0@ == f.spec_withs(),
        r.1@ == f.spec_withouts(),
        final(trackers)@ == f.spec_register(old(trackers)@),
{
    let mut w = AccessVec::new();
    let mut wo = AccessVec::new();
    f.collect_filter(&mut w, &mut wo, trackers);
    assert(w@ =~= f.spec_withs());
    assert(wo@ =~= f.spec_withouts());
    (w, wo)
}

/// Archetypes that hold kind `.0`.
pub struct With(pub ComponentId);

/// Archetypes that lack kind `.0`.
pub struct Without(pub ComponentId);

/// Every archetype, every row.
pub struct EmptyQueryFilter;

/// Archetypes that hold the change marker `marker` of `component`; of
/// those, the rows whose component changed in the previous frame.
pub struct Changed {
    pub component: ComponentId,
    pub marker: ComponentId,
}

/// Archetypes that hold the addition marker `marker` of `component`; of
/// those, the rows added in the previous frame.
pub struct Added {
    pub component: ComponentId,
    pub marker: ComponentId,
}

/// Archetypes that either filter matches. It declares only the kinds that
/// both sides require or both sides exclude.
pub struct Or<A, B>(pub A, pub B);

/// Archetypes that the inner filter's negated form matches.
pub struct Not<F>(pub F);

/// Archetypes that at least one filter of the tuple matches. It declares
/// only the kinds that every member requires or every member excludes.
pub struct AnyOf<T>(pub T);

impl QueryFilter for With {
    open spec fn spec_matches(&self, types: Set<ComponentId>) -> bool {
        types.contains(self.0)
    }

    open spec fn spec_matches_negated(&self, types: Set<ComponentId>) -> bool {
        !types.contains(self.0)
    }

    open spec fn spec_withs(&self) -> Seq<ComponentId> {
        seq![self.0]
    }

    open spec fn spec_withouts(&self) -> Seq<ComponentId> {
        Seq::empty()
    }

    open spec fn spec_register(&self, t: Seq<TrackedEntry>) -> Seq<TrackedEntry> {
        t
    }

    open spec fn spec_filter_rows(&self, markers: Seq<MarkerColumn>, rows: Seq<usize>, ctx: ReadContext) -> Seq<usize> {
        rows
    }

    fn matches(&self, types: &AccessHashSet) -> (r: bool) {
        types.contains(&self.0)
    }

    fn matches_negated(&self, types: &AccessHashSet) -> (r: bool) {
        !types.contains(&self.0)
    }

    fn collect_filter(
        &self,
        withs: &mut AccessVec<ComponentId>,
        withouts: &mut AccessVec<ComponentId>,
        trackers: &mut TrackedComponents,
    ) {
        withs.push(self.0);
        assert(withs@ == old(withs)@ + seq![self.0]);
        assert(withouts@ == old(withouts)@ + Seq::<ComponentId>::empty());
    }

    fn filter_indices(&self, markers: &[MarkerColumn], indices: &mut Vec<usize>, ctx: &ReadContext) {
    }
}

impl StructuralQueryFilter for With {

}

impl QueryFilter for Without {
    open spec fn spec_matches(&self, types: Set<ComponentId>) -> bool {
        !types.contains(self.0)
    }

    open spec fn spec_matches_negated(&self, types: Set<ComponentId>) -> bool {
        types.contains(self.0)
    }

    open spec fn spec_withs(&self) -> Seq<ComponentId> {
        Seq::empty()
    }

    open spec fn spec_withouts(&self) -> Seq<ComponentId> {
        seq![self.0]
    }

    open spec fn spec_register(&self, t: Seq<TrackedEntry>) -> Seq<TrackedEntry> {
        t
    }

    open spec fn spec_filter_rows(&self, markers: Seq<MarkerColumn>, rows: Seq<usize>, ctx: ReadContext) -> Seq<usize> {
        rows
    }

    fn matches(&self, types: &AccessHashSet) -> (r: bool) {
        !types.contains(&self.0)
    }

    fn matches_negated(&self, types: &AccessHashSet) -> (r: bool) {
        types.contains(&self.0)
    }

    fn collect_filter(
        &self,
        withs: &mut AccessVec<ComponentId>,
        withouts: &mut AccessVec<ComponentId>,
        trackers: &mut TrackedComponents,
    ) {
        withouts.push(self.0);
        assert(withouts@ == old(withouts)@ + seq![self.0]);
        assert(withs@ == old(withs)@ + Seq::<ComponentId>::empty());
    }

    fn filter_indices(&self, markers: &[MarkerColumn], indices: &mut Vec<usize>, ctx: &ReadContext) {
    }
}

impl StructuralQueryFilter for Without {

}

impl QueryFilter for EmptyQueryFilter {
    open spec fn spec_matches(&self, types: Set<ComponentId>) -> bool {
        true
    }

    open spec fn spec_matches_negated(&self, types: Set<ComponentId>) -> bool {
        false
    }

    open spec fn spec_withs(&self) -> Seq<ComponentId> {
        Seq::empty()
    }

    open spec fn spec_withouts(&self) -> Seq<ComponentId> {
        Seq::empty()
    }

    open spec fn spec_register(&self, t: Seq<TrackedEntry>) -> Seq<TrackedEntry> {
        t
    }

    open spec fn spec_filter_rows(&self, markers: Seq<MarkerColumn>, rows: Seq<usize>, ctx: ReadContext) -> Seq<usize> {
        rows
    }

    fn matches(&self, types: &AccessHashSet) -> (r: bool) {
        true
    }

    fn matches_negated(&self, types: &AccessHashSet) -> (r: bool) {
        false
    }

    fn collect_filter(
        &self,
        withs: &mut AccessVec<ComponentId>,
        withouts: &mut AccessVec<ComponentId>,
        trackers: &mut TrackedComponents,
    ) {
        assert(withs@ == old(withs)@ + Seq::<ComponentId>::empty());
        assert(withouts@ == old(withouts)@ + Seq::<ComponentId>::empty());
    }

    fn filter_indices(&self, markers: &[MarkerColumn], indices: &mut Vec<usize>, ctx: &ReadContext) {
    }
}

impl QueryFilter for Changed {
    open spec fn spec_matches(&self, types: Set<ComponentId>) -> bool {
        types.contains(self.marker)
    }

    open spec fn spec_matches_negated(&self, types: Set<ComponentId>) -> bool {
        !types.contains(self.marker)
    }

    open spec fn spec_withs(&self) -> Seq<ComponentId> {
        seq![self.marker]
    }

    open spec fn spec_withouts(&self) -> Seq<ComponentId> {
        Seq::empty()
    }

    open spec fn spec_register(&self, t: Seq<TrackedEntry>) -> Seq<TrackedEntry> {
        registered(t, self.component, self.marker, MarkerKind::Changed)
    }

    open spec fn spec_filter_rows(&self, markers: Seq<MarkerColumn>, rows: Seq<usize>, ctx: ReadContext) -> Seq<usize> {
        rows.filter(|r: usize| row_stamped(markers, self.marker, r, ctx))
    }

    fn matches(&self, types: &AccessHashSet) -> (r: bool) {
        types.contains(&self.marker)
    }

    fn matches_negated(&self, types: &AccessHashSet) -> (r: bool) {
        !types.contains(&self.marker)
    }

    fn collect_filter(
        &self,
        withs: &mut AccessVec<ComponentId>,
        withouts: &mut AccessVec<ComponentId>,
        trackers: &mut TrackedComponents,
    ) {
        withs.push(self.marker);
        trackers.register_tracked_component(self.component, self.marker);
        assert(withs@ == old(withs)@ + seq![self.marker]);
        assert(withouts@ == old(withouts)@ + Seq::<ComponentId>::empty());
    }

    fn filter_indices(&self, markers: &[MarkerColumn], indices: &mut Vec<usize>, ctx: &ReadContext) {
        retain_stamped(markers, self.marker, indices, ctx);
    }
}

impl QueryFilter for Added {
    open spec fn spec_matches(&self, types: Set<ComponentId>) -> bool {
        types.contains(self.marker)
    }

    open spec fn spec_matches_negated(&self, types: Set<ComponentId>) -> bool {
        !types.contains(self.marker)
    }

    open spec fn spec_withs(&self) -> Seq<ComponentId> {
        seq![self.marker]
    }

    open spec fn spec_withouts(&self) -> Seq<ComponentId> {
        Seq::empty()
    }

    open spec fn spec_register(&self, t: Seq<TrackedEntry>) -> Seq<TrackedEntry> {
        registered(t, self.component, self.marker, MarkerKind::Added)
    }

    open spec fn spec_filter_rows(&self, markers: Seq<MarkerColumn>, rows: Seq<usize>, ctx: ReadContext) -> Seq<usize> {
        rows.filter(|r: usize| row_marked(markers, self.marker, r, ctx.read_slot))
    }

    fn matches(&self, types: &AccessHashSet) -> (r: bool) {
        types.contains(&self.marker)
    }

    fn matches_negated(&self, types: &AccessHashSet) -> (r: bool) {
        !types.contains(&self.marker)
    }

    fn collect_filter(
        &self,
        withs: &mut AccessVec<ComponentId>,
        withouts: &mut AccessVec<ComponentId>,
        trackers: &mut TrackedComponents,
    ) {
        withs.push(self.marker);
        trackers.register_added_tracked_component(self.component, self.marker);
        assert(withs@ == old(withs)@ + seq![self.marker]);
        assert(withouts@ == old(withouts)@ + Seq::<ComponentId>::empty());
    }

    fn filter_indices(&self, markers: &[MarkerColumn], indices: &mut Vec<usize>, ctx: &ReadContext) {
        retain_marked(markers, self.marker, indices, ctx.read_slot);
    }
}

impl<A: StructuralQueryFilter, B: StructuralQueryFilter> QueryFilter for Or<A, B> {
    open spec fn spec_matches(&self, types: Set<ComponentId>) -> bool {
        self.0.spec_matches(types) || self.1.spec_matches(types)
    }

    open spec fn spec_matches_negated(&self, types: Set<ComponentId>) -> bool {
        !self.spec_matches(types)
    }

    open spec fn spec_withs(&self) -> Seq<ComponentId> {
        common(self.0.spec_withs(), self.1.spec_withs())
    }

    open spec fn spec_withouts(&self) -> Seq<ComponentId> {
        common(self.0.spec_withouts(), self.1.spec_withouts())
    }

    open spec fn spec_register(&self, t: Seq<TrackedEntry>) -> Seq<TrackedEntry> {
        self.1.spec_register(self.0.spec_register(t))
    }

    open spec fn spec_filter_rows(&self, markers: Seq<MarkerColumn>, rows: Seq<usize>, ctx: ReadContext) -> Seq<usize> {
        rows
    }

    fn matches(&self, types: &AccessHashSet) -> (r: bool) {
        self.0.matches(types) || self.1.matches(types)
    }

    fn matches_negated(&self, types: &AccessHashSet) -> (r: bool) {
        !self.matches(types)
    }

    fn collect_filter(
        &self,
        withs: &mut AccessVec<ComponentId>,
        withouts: &mut AccessVec<ComponentId>,
        trackers: &mut TrackedComponents,
    ) {
        let (a_w, a_wo) = collect_apart(&self.0, trackers);
        let (b_w, b_wo) = collect_apart(&self.1, trackers);
        push_common(withs, &a_w, &b_w);
        push_common(withouts, &a_wo, &b_wo);
    }

    fn filter_indices(&self, markers: &[MarkerColumn], indices: &mut Vec<usize>, ctx: &ReadContext) {
    }
}

impl<A: StructuralQueryFilter, B: StructuralQueryFilter> StructuralQueryFilter for Or<A, B> {

}

impl<F: StructuralQueryFilter> QueryFilter for Not<F> {
    open spec fn spec_matches(&self, types: Set<ComponentId>) -> bool {
        self.0.spec_matches_negated(types)
    }

    open spec fn spec_matches_negated(&self, types: Set<ComponentId>) -> bool {
        !self.0.spec_matches_negated(types)
    }

    open spec fn spec_withs(&self) -> Seq<ComponentId> {
        self.0.spec_withouts()
    }

    open spec fn spec_withouts(&self) -> Seq<ComponentId> {
        self.0.spec_withs()
    }

    open spec fn spec_register(&self, t: Seq<TrackedEntry>) -> Seq<TrackedEntry> {
        self.0.spec_register(t)
    }

    open spec fn spec_filter_rows(&self, markers: Seq<MarkerColumn>, rows: Seq<usize>, ctx: ReadContext) -> Seq<usize> {
        rows
    }

    fn matches(&self, types: &AccessHashSet) -> (r: bool) {
        self.0.matches_negated(types)
    }

    fn matches_negated(&self, types: &AccessHashSet) -> (r: bool) {
        !self.0.matches_negated(types)
    }

    /// The inner filter's required kinds become excluded kinds and the
    /// other way round.
    fn collect_filter(
        &self,
        withs: &mut AccessVec<ComponentId>,
        withouts: &mut AccessVec<ComponentId>,
        trackers: &mut TrackedComponents,
    ) {
        self.0.collect_filter(withouts, withs, trackers);
    }

    fn filter_indices(&self, markers: &[MarkerColumn], indices: &mut Vec<usize>, ctx: &ReadContext) {
    }
}

impl<F: StructuralQueryFilter> StructuralQueryFilter for Not<F> {

}

impl<A: StructuralQueryFilter> QueryFilter for AnyOf<(A,)> {
    open spec fn spec_matches(&self, types: Set<ComponentId>) -> bool {
        self.0.0.spec_matches(types)
    }

    open spec fn spec_matches_negated(&self, types: Set<ComponentId>) -> bool {
        !self.spec_matches(types)
    }

    open spec fn spec_withs(&self) -> Seq<ComponentId> {
        self.0.0.spec_withs()
    }

    open spec fn spec_withouts(&self) -> Seq<ComponentId> {
        self.0.0.spec_withouts()
    }

    open spec fn spec_register(&self, t: Seq<TrackedEntry>) -> Seq<TrackedEntry> {
        self.0.0.spec_register(t)
    }

    open spec fn spec_filter_rows(&self, markers: Seq<MarkerColumn>, rows: Seq<usize>, ctx: ReadContext) -> Seq<usize> {
        rows
    }

    fn matches(&self, types: &AccessHashSet) -> (r: bool) {
        self.0.0.matches(types)
    }

    fn matches_negated(&self, types: &AccessHashSet) -> (r: bool) {
        !self.matches(types)
    }

    fn collect_filter(
        &self,
        withs: &mut AccessVec<ComponentId>,
        withouts: &mut AccessVec<ComponentId>,
        trackers: &mut TrackedComponents,
    ) {
        self.0.0.collect_filter(withs, withouts, trackers);
    }

    fn filter_indices(&self, markers: &[MarkerColumn], indices: &mut Vec<usize>, ctx: &ReadContext) {
    }
}

impl<A: StructuralQueryFilter, B: StructuralQueryFilter> QueryFilter for AnyOf<(A, B)> {
    open spec fn spec_matches(&self, types: Set<ComponentId>) -> bool {
        self.0.0.spec_matches(types) || self.0.1.spec_matches(types)
    }

    open spec fn spec_matches_negated(&self, types: Set<ComponentId>) -> bool {
        !self.spec_matches(types)
    }

    open spec fn spec_withs(&self) -> Seq<ComponentId> {
        common(self.0.0.spec_withs(), self.0.1.spec_withs())
    }

    open spec fn spec_withouts(&self) -> Seq<ComponentId> {
        common(self.0.0.spec_withouts(), self.0.1.spec_withouts())
    }

    open spec fn spec_register(&self, t: Seq<TrackedEntry>) -> Seq<TrackedEntry> {
        self.0.1.spec_register(self.0.0.spec_register(t))
    }

    open spec fn spec_filter_rows(&self, markers: Seq<MarkerColumn>, rows: Seq<usize>, ctx: ReadContext) -> Seq<usize> {
        rows
    }

    fn matches(&self, types: &AccessHashSet) -> (r: bool) {
        self.0.0.matches(types) || self.0.1.matches(types)
    }

    fn matches_negated(&self, types: &AccessHashSet) -> (r: bool) {
        !self.matches(types)
    }

    fn collect_filter(
        &self,
        withs: &mut AccessVec<ComponentId>,
        withouts: &mut AccessVec<ComponentId>,
        trackers: &mut TrackedComponents,
    ) {
        let (a_w, a_wo) = collect_apart(&self.0.0, trackers);
        let (b_w, b_wo) = collect_apart(&self.0.1, trackers);
        push_common(withs, &a_w, &b_w);
        push_common(withouts, &a_wo, &b_wo);
    }

    fn filter_indices(&self, markers: &[MarkerColumn], indices: &mut Vec<usize>, ctx: &ReadContext) {
    }
}

impl<A: StructuralQueryFilter, B: StructuralQueryFilter, C: StructuralQueryFilter> QueryFilter for AnyOf<(
    A,
    B,
    C,
)> {
    open spec fn spec_matches(&self, types: Set<ComponentId>) -> bool {
        self.0.0.spec_matches(types) || self.0.1.spec_matches(types) || self.0.2.spec_matches(types)
    }

    open spec fn spec_matches_negated(&self, types: Set<ComponentId>) -> bool {
        !self.spec_matches(types)
    }

    open spec fn spec_withs(&self) -> Seq<ComponentId> {
        common(common(self.0.0.spec_withs(), self.0.1.spec_withs()), self.0.2.spec_withs())
    }

    open spec fn spec_withouts(&self) -> Seq<ComponentId> {
        common(common(self.0.0.spec_withouts(), self.0.1.spec_withouts()), self.0.2.spec_withouts())
    }

    open spec fn spec_register(&self, t: Seq<TrackedEntry>) -> Seq<TrackedEntry> {
        self.0.2.spec_register(self.0.1.spec_register(self.0.0.spec_register(t)))
    }

    open spec fn spec_filter_rows(&self, markers: Seq<MarkerColumn>, rows: Seq<usize>, ctx: ReadContext) -> Seq<usize> {
        rows
    }

    fn matches(&self, types: &AccessHashSet) -> (r: bool) {
        self.0.0.matches(types) || self.0.1.matches(types) || self.0.2.matches(types)
    }

    fn matches_negated(&self, types: &AccessHashSet) -> (r: bool) {
        !self.matches(types)
    }

    fn collect_filter(
        &self,
        withs: &mut AccessVec<ComponentId>,
        withouts: &mut AccessVec<ComponentId>,
        trackers: &mut TrackedComponents,
    ) {
        let (a_w, a_wo) = collect_apart(&self.0.0, trackers);
        let (b_w, b_wo) = collect_apart(&self.0.1, trackers);
        let (c_w, c_wo) = collect_apart(&self.0.2, trackers);
        let mut ab_w = AccessVec::new();
        let mut ab_wo = AccessVec::new();
        push_common(&mut ab_w, &a_w, &b_w);
        push_common(&mut ab_wo, &a_wo, &b_wo);
        assert(ab_w@ =~= common(a_w@, b_w@));
        assert(ab_wo@ =~= common(a_wo@, b_wo@));
        push_common(withs, &ab_w, &c_w);
        push_common(withouts, &ab_wo, &c_wo);
    }

    fn filter_indices(&self, markers: &[MarkerColumn], indices: &mut Vec<usize>, ctx: &ReadContext) {
    }
}

impl<A: StructuralQueryFilter> StructuralQueryFilter for AnyOf<(A,)> {

}

impl<A: StructuralQueryFilter, B: StructuralQueryFilter> StructuralQueryFilter for AnyOf<(A, B)> {

}

impl<A: StructuralQueryFilter, B: StructuralQueryFilter, C: StructuralQueryFilter> StructuralQueryFilter for AnyOf<(
    A,
    B,
    C,
)> {

}

impl<A: QueryFilter> QueryFilter for (A,) {
    open spec fn spec_matches(&self, types: Set<ComponentId>) -> bool {
        self.0.spec_matches(types)
    }

    open spec fn spec_matches_negated(&self, types: Set<ComponentId>) -> bool {
        self.0.spec_matches_negated(types)
    }

    open spec fn spec_withs(&self) -> Seq<ComponentId> {
        self.0.spec_withs()
    }

    open spec fn spec_withouts(&self) -> Seq<ComponentId> {
        self.0.spec_withouts()
    }

    open spec fn spec_register(&self, t: Seq<TrackedEntry>) -> Seq<TrackedEntry> {
        self.0.spec_register(t)
    }

    open spec fn spec_filter_rows(&self, markers: Seq<MarkerColumn>, rows: Seq<usize>, ctx: ReadContext) -> Seq<usize> {
        self.0.spec_filter_rows(markers, rows, ctx)
    }

    fn matches(&self, types: &AccessHashSet) -> (r: bool) {
        self.0.matches(types)
    }

    fn matches_negated(&self, types: &AccessHashSet) -> (r: bool) {
        self.0.matches_negated(types)
    }

    fn collect_filter(
        &self,
        withs: &mut AccessVec<ComponentId>,
        withouts: &mut AccessVec<ComponentId>,
        trackers: &mut TrackedComponents,
    ) {
        self.0.collect_filter(withs, withouts, trackers);
    }

    fn filter_indices(&self, markers: &[MarkerColumn], indices: &mut Vec<usize>, ctx: &ReadContext) {
        self.0.filter_indices(markers, indices, ctx);
    }
}

/// A pair matches when both filters match; its negated form also asks both
/// negated forms, not either.
impl<A: QueryFilter, B: QueryFilter> QueryFilter for (A, B) {
    open spec fn spec_matches(&self, types: Set<ComponentId>) -> bool {
        self.0.spec_matches(types) && self.1.spec_matches(types)
    }

    open spec fn spec_matches_negated(&self, types: Set<ComponentId>) -> bool {
        self.0.spec_matches_negated(types) && self.1.spec_matches_negated(types)
    }

    open spec fn spec_withs(&self) -> Seq<ComponentId> {
        self.0.spec_withs() + self.1.spec_withs()
    }

    open spec fn spec_withouts(&self) -> Seq<ComponentId> {
        self.0.spec_withouts() + self.1.spec_withouts()
    }

    open spec fn spec_register(&self, t: Seq<TrackedEntry>) -> Seq<TrackedEntry> {
        self.1.spec_register(self.0.spec_register(t))
    }

    open spec fn spec_filter_rows(&self, markers: Seq<MarkerColumn>, rows: Seq<usize>, ctx: ReadContext) -> Seq<usize> {
        self.1.spec_filter_rows(markers, self.0.spec_filter_rows(markers, rows, ctx), ctx)
    }

    fn matches(&self, types: &AccessHashSet) -> (r: bool) {
        self.0.matches(types) && self.1.matches(types)
    }

    fn matches_negated(&self, types: &AccessHashSet) -> (r: bool) {
        self.0.matches_negated(types) && self.1.matches_negated(types)
    }

    fn collect_filter(
        &self,
        withs: &mut AccessVec<ComponentId>,
        withouts: &mut AccessVec<ComponentId>,
        trackers: &mut TrackedComponents,
    ) {
        self.0.collect_filter(withs, withouts, trackers);
        self.1.collect_filter(withs, withouts, trackers);
        assert(withs@ == old(withs)@ + self.spec_withs());
        assert(withouts@ == old(withouts)@ + self.spec_withouts());
    }

    fn filter_indices(&self, markers: &[MarkerColumn], indices: &mut Vec<usize>, ctx: &ReadContext) {
        self.0.filter_indices(markers, indices, ctx);
        self.1.filter_indices(markers, indices, ctx);
    }
}

impl<A: QueryFilter, B: QueryFilter, C: QueryFilter> QueryFilter for (A, B, C) {
    open spec fn spec_matches(&self, types: Set<ComponentId>) -> bool {
        self.0.spec_matches(types) && self.1.spec_matches(types) && self.2.spec_matches(types)
    }

    open spec fn spec_matches_negated(&self, types: Set<ComponentId>) -> bool {
        self.0.spec_matches_negated(types) && self.1.spec_matches_negated(types)
            && self.2.spec_matches_negated(types)
    }

    open spec fn spec_withs(&self) -> Seq<ComponentId> {
        self.0.spec_withs() + self.1.spec_withs() + self.2.spec_withs()
    }

    open spec fn spec_withouts(&self) -> Seq<ComponentId> {
        self.0.spec_withouts() + self.1.spec_withouts() + self.2.spec_withouts()
    }

    open spec fn spec_register(&self, t: Seq<TrackedEntry>) -> Seq<TrackedEntry> {
        self.2.spec_register(self.1.spec_register(self.0.spec_register(t)))
    }

    open spec fn spec_filter_rows(&self, markers: Seq<MarkerColumn>, rows: Seq<usize>, ctx: ReadContext) -> Seq<usize> {
        self.2.spec_filter_rows(
            markers,
            self.1.spec_filter_rows(markers, self.0.spec_filter_rows(markers, rows, ctx), ctx),
            ctx,
        )
    }

    fn matches(&self, types: &AccessHashSet) -> (r: bool) {
        self.0.matches(types) && self.1.matches(types) && self.2.matches(types)
    }

    fn matches_negated(&self, types: &AccessHashSet) -> (r: bool) {
        self.0.matches_negated(types) && self.1.matches_negated(types) && self.2.matches_negated(types)
    }

    fn collect_filter(
        &self,
        withs: &mut AccessVec<ComponentId>,
        withouts: &mut AccessVec<ComponentId>,
        trackers: &mut TrackedComponents,
    ) {
        self.0.collect_filter(withs, withouts, trackers);
        self.1.collect_filter(withs, withouts, trackers);
        self.2.collect_filter(withs, withouts, trackers);
        assert(withs@ == old(withs)@ + self.spec_withs());
        assert(withouts@ == old(withouts)@ + self.spec_withouts());
    }

    fn filter_indices(&self, markers: &[MarkerColumn], indices: &mut Vec<usize>, ctx: &ReadContext) {
        self.0.filter_indices(markers, indices, ctx);
        self.1.filter_indices(markers, indices, ctx);
        self.2.filter_indices(markers, indices, ctx);
    }
}

impl<A: StructuralQueryFilter> StructuralQueryFilter for (A,) {

}

impl<A: StructuralQueryFilter, B: StructuralQueryFilter> StructuralQueryFilter for (A, B) {

}

impl<A: StructuralQueryFilter, B: StructuralQueryFilter, C: StructuralQueryFilter> StructuralQueryFilter for (
    A,
    B,
    C,
) {

}

/// `With` and `Without` of the same kind decide every archetype oppositely,
/// and negating `With` is `Without`.
pub proof fn lemma_with_without_complement(id: ComponentId, types: Set<ComponentId>)
    ensures
        With(id).spec_matches(types) == !Without(id).spec_matches(types),
        Not(With(id)).spec_matches(types) == Without(id).spec_matches(types),
        Not(Without(id)).spec_matches(types) == With(id).spec_matches(types),
{
}

/// Negating a filter twice gives back its decision, for `With`, `Without`
/// and `Or` of such filters.
pub proof fn lemma_double_negation(a: ComponentId, b: ComponentId, types: Set<ComponentId>)
    ensures
        Not(Not(With(a))).spec_matches(types) == With(a).spec_matches(types),
        Not(Not(Without(a))).spec_matches(types) == Without(a).spec_matches(types),
        Not(Not(Or(With(a), Without(b)))).spec_matches(types) == Or(With(a), Without(b)).spec_matches(types),
{
}

/// Negating a filter swaps the kinds it requires and the kinds it excludes
/// in the declared access, and registers the same markers.
pub proof fn lemma_not_swaps_access<F: StructuralQueryFilter>(f: F, t: Seq<TrackedEntry>)
    ensures
        Not(f).spec_withs() == f.spec_withouts(),
        Not(f).spec_withouts() == f.spec_withs(),
        Not(f).spec_register(t) == f.spec_register(t),
{
}

/// The negated form of a pair asks both negated forms: negating a pair of
/// `With` filters keeps the archetypes that lack both kinds, not those that
/// lack either.
pub proof fn lemma_pair_negation(a: ComponentId, b: ComponentId, types: Set<ComponentId>)
    ensures
        Not((With(a), With(b))).spec_matches(types) == (!types.contains(a) && !types.contains(b)),
        (With(a), With(b)).spec_matches(types) == (types.contains(a) && types.contains(b)),
{
}

/// A change filter keeps a subset of the rows it is given, in their order.
pub proof fn lemma_changed_keeps_subset(f: Changed, markers: Seq<MarkerColumn>, rows: Seq<usize>, ctx: ReadContext)
    ensures
        f.spec_filter_rows(markers, rows, ctx).len() <= rows.len(),
        forall|r: usize| f.spec_filter_rows(markers, rows, ctx).contains(r) ==> rows.contains(r),
{
    let p = |r: usize| row_stamped(markers, f.marker, r, ctx);
    rows.lemma_filter_len(p);
    assert forall|r: usize| rows.filter(p).contains(r) implies rows.contains(r) by {
        rows.lemma_filter_contains_rev(p, r);
    }
}


/// A change filter reports a row to every system that runs after the
/// row's writer in the same generation, unless it already ran in that
/// generation: a change is seen in the frame in which it is made.
pub proof fn lemma_changed_reports_later_system(
    f: Changed,
    markers: Seq<MarkerColumn>,
    rows: Seq<usize>,
    i: int,
    j: int,
    ctx: ReadContext,
)
    requires
        0 <= i < markers.len(),
        markers[i].spec_marker_id() == f.marker,
        0 <= j < rows.len(),
        (rows[j] as int) < markers[i].rows().len(),
        markers[i].stamps()[rows[j] as int].0 == ctx.generation,
        ctx.generation != 0,
        ctx.last_run != ctx.generation,
        ctx.system_id > markers[i].stamps()[rows[j] as int].1,
    ensures
        f.spec_filter_rows(markers, rows, ctx).contains(rows[j]),
{
    let p = |r: usize| row_stamped(markers, f.marker, r, ctx);
    assert(row_stamped(markers, f.marker, rows[j], ctx));
    rows.lemma_filter_contains(p, j);
}

/// Registering change tracking and addition tracking of one component, in
/// either order, leaves both tracked; registering either again changes
/// nothing.
pub proof fn lemma_change_and_addition_coexist(
    t: Seq<TrackedEntry>,
    component: ComponentId,
    changed_marker: ComponentId,
    added_marker: ComponentId,
)
    ensures
        ({
            let u = registered(
                registered(t, component, changed_marker, MarkerKind::Changed),
                component,
                added_marker,
                MarkerKind::Added,
            );
            &&& is_tracked(u, component, MarkerKind::Changed)
            &&& is_tracked(u, component, MarkerKind::Added)
            &&& registered(u, component, changed_marker, MarkerKind::Changed) == u
            &&& registered(u, component, added_marker, MarkerKind::Added) == u
        }),
{
    let t1 = registered(t, component, changed_marker, MarkerKind::Changed);
    if !is_tracked(t, component, MarkerKind::Changed) {
        assert(t1[t.len() as int].0 == component && t1[t.len() as int].2 == MarkerKind::Changed);
    }
    assert(is_tracked(t1, component, MarkerKind::Changed));
    let u = registered(t1, component, added_marker, MarkerKind::Added);
    if !is_tracked(t1, component, MarkerKind::Added) {
        assert(u[t1.len() as int].0 == component && u[t1.len() as int].2 == MarkerKind::Added);
        let i = choose|i: int| 0 <= i < t1.len() && (#[trigger] t1[i]).0 == component && t1[i].2 == MarkerKind::Changed;
        assert(u[i] == t1[i]);
    }
    assert(is_tracked(u, component, MarkerKind::Changed));
    assert(is_tracked(u, component, MarkerKind::Added));
}


/// Every kind a filter declares as required is held, and every kind it
/// declares as excluded is lacked, by every set of kinds the filter
/// matches; access checking relies on this.
pub open spec fn declares_soundly<F: QueryFilter>(f: F) -> bool {
    &&& forall|t: Set<ComponentId>, k: int|
        #![trigger f.spec_matches(t), f.spec_withs()[k]]
        f.spec_matches(t) && 0 <= k < f.spec_withs().len() ==> t.contains(f.spec_withs()[k])
    &&& forall|t: Set<ComponentId>, k: int|
        #![trigger f.spec_matches(t), f.spec_withouts()[k]]
        f.spec_matches(t) && 0 <= k < f.spec_withouts().len() ==> !t.contains(f.spec_withouts()[k])
}

/// `With` and `Without` declare soundly.
pub proof fn lemma_with_without_sound(id: ComponentId)
    ensures
        declares_soundly(With(id)),
        declares_soundly(Without(id)),
{
}

/// `Or` of two soundly declaring filters declares soundly: a kind it
/// requires is required by both sides, so whichever side matches holds it.
pub proof fn lemma_or_sound<A: StructuralQueryFilter, B: StructuralQueryFilter>(a: A, b: B)
    requires
        declares_soundly(a),
        declares_soundly(b),
    ensures
        declares_soundly(Or(a, b)),
{
    let o = Or(a, b);
    assert forall|t: Set<ComponentId>, k: int|
        #![trigger o.spec_matches(t), o.spec_withs()[k]]
        o.spec_matches(t) && 0 <= k < o.spec_withs().len() implies t.contains(o.spec_withs()[k]) by {
        let pb = |f: ComponentId| b.spec_withs().contains(f);
        a.spec_withs().lemma_filter_pred(pb, k);
        let x = o.spec_withs()[k];
        a.spec_withs().lemma_filter_contains_rev(pb, x);
        let i = choose|i: int| 0 <= i < a.spec_withs().len() && a.spec_withs()[i] == x;
        let j = choose|j: int| 0 <= j < b.spec_withs().len() && b.spec_withs()[j] == x;
        if a.spec_matches(t) {
            assert(t.contains(a.spec_withs()[i]));
        } else {
            assert(t.contains(b.spec_withs()[j]));
        }
    }
    assert forall|t: Set<ComponentId>, k: int|
        #![trigger o.spec_matches(t), o.spec_withouts()[k]]
        o.spec_matches(t) && 0 <= k < o.spec_withouts().len() implies !t.contains(o.spec_withouts()[k]) by {
        let pb = |f: ComponentId| b.spec_withouts().contains(f);
        a.spec_withouts().lemma_filter_pred(pb, k);
        let x = o.spec_withouts()[k];
        a.spec_withouts().lemma_filter_contains_rev(pb, x);
        let i = choose|i: int| 0 <= i < a.spec_withouts().len() && a.spec_withouts()[i] == x;
        let j = choose|j: int| 0 <= j < b.spec_withouts().len() && b.spec_withouts()[j] == x;
        if a.spec_matches(t) {
            assert(!t.contains(a.spec_withouts()[i]));
        } else {
            assert(!t.contains(b.spec_withouts()[j]));
        }
    }
}

/// A pair of soundly declaring filters declares soundly.
pub proof fn lemma_pair_sound<A: QueryFilter, B: QueryFilter>(a: A, b: B)
    requires
        declares_soundly(a),
        declares_soundly(b),
    ensures
        declares_soundly((a, b)),
{
    let p = (a, b);
    assert forall|t: Set<ComponentId>, k: int|
        #![trigger p.spec_matches(t), p.spec_withs()[k]]
        p.spec_matches(t) && 0 <= k < p.spec_withs().len() implies t.contains(p.spec_withs()[k]) by {
        if k < a.spec_withs().len() {
            assert(p.spec_withs()[k] == a.spec_withs()[k]);
        } else {
            assert(p.spec_withs()[k] == b.spec_withs()[k - a.spec_withs().len()]);
        }
    }
    assert forall|t: Set<ComponentId>, k: int|
        #![trigger p.spec_matches(t), p.spec_withouts()[k]]
        p.spec_matches(t) && 0 <= k < p.spec_withouts().len() implies !t.contains(p.spec_withouts()[k]) by {
        if k < a.spec_withouts().len() {
            assert(p.spec_withouts()[k] == a.spec_withouts()[k]);
        } else {
            assert(p.spec_withouts()[k] == b.spec_withouts()[k - a.spec_withouts().len()]);
        }
    }
}


/// `With(x)` matches exactly the kind sets holding `x`, `Without(x)` those
/// lacking it, and the empty filter every set; a change or addition filter
/// matches the sets holding its marker.
pub proof fn lemma_single_filters_match(x: ComponentId, marker: ComponentId, t: Set<ComponentId>)
    ensures
        With(x).spec_matches(t) <==> t.contains(x),
        Without(x).spec_matches(t) <==> !t.contains(x),
        With(x).spec_matches_negated(t) <==> !t.contains(x),
        Without(x).spec_matches_negated(t) <==> t.contains(x),
        EmptyQueryFilter.spec_matches(t),
        (Changed { component: x, marker }).spec_matches(t) <==> t.contains(marker),
        (Added { component: x, marker }).spec_matches(t) <==> t.contains(marker),
        Not(With(x)).spec_matches(t) <==> !t.contains(x),
        Not(Without(x)).spec_matches(t) <==> t.contains(x),
        Not(Not(With(x))).spec_matches(t) <==> t.contains(x),
{
}

/// A tuple of filters matches a kind set exactly when each of its parts
/// matches it; its negated form, exactly when each part's negated form
/// does. A triple is the pair of its first two parts together with the
/// third.
pub proof fn lemma_tuple_matches_all_parts<A: QueryFilter, B: QueryFilter, C: QueryFilter>(
    a: A,
    b: B,
    c: C,
    t: Set<ComponentId>,
)
    ensures
        (a,).spec_matches(t) <==> a.spec_matches(t),
        (a, b).spec_matches(t) <==> a.spec_matches(t) && b.spec_matches(t),
        (a, b, c).spec_matches(t) <==> a.spec_matches(t) && b.spec_matches(t) && c.spec_matches(t),
        (a, b, c).spec_matches(t) <==> (a, b).spec_matches(t) && c.spec_matches(t),
        !c.spec_matches(t) ==> !(a, b, c).spec_matches(t),
        !a.spec_matches(t) ==> !(a, b, c).spec_matches(t) && !(a, b).spec_matches(t),
        (a, b).spec_matches_negated(t) <==> a.spec_matches_negated(t) && b.spec_matches_negated(t),
        (a, b, c).spec_matches_negated(t) <==> a.spec_matches_negated(t) && b.spec_matches_negated(t)
            && c.spec_matches_negated(t),
{
}

/// `AnyOf` matches a kind set exactly when some of its parts matches it,
/// and `Or` when either side does; a set matched by any single part alone
/// is matched. Their negated forms are the plain negation.
pub proof fn lemma_any_of_matches_some_part<A: StructuralQueryFilter, B: StructuralQueryFilter, C: StructuralQueryFilter>(
    a: A,
    b: B,
    c: C,
    t: Set<ComponentId>,
)
    ensures
        AnyOf((a,)).spec_matches(t) <==> a.spec_matches(t),
        AnyOf((a, b)).spec_matches(t) <==> a.spec_matches(t) || b.spec_matches(t),
        AnyOf((a, b, c)).spec_matches(t) <==> a.spec_matches(t) || b.spec_matches(t) || c.spec_matches(t),
        AnyOf((a, b, c)).spec_matches(t) <==> AnyOf((a, b)).spec_matches(t) || c.spec_matches(t),
        Or(a, b).spec_matches(t) <==> a.spec_matches(t) || b.spec_matches(t),
        AnyOf((a, b)).spec_matches(t) <==> Or(a, b).spec_matches(t),
        c.spec_matches(t) ==> AnyOf((a, b, c)).spec_matches(t),
        b.spec_matches(t) ==> AnyOf((a, b, c)).spec_matches(t) && AnyOf((a, b)).spec_matches(t),
        a.spec_matches(t) ==> AnyOf((a, b, c)).spec_matches(t) && AnyOf((a, b)).spec_matches(t),
        AnyOf((a, b, c)).spec_matches_negated(t) <==> !AnyOf((a, b, c)).spec_matches(t),
        AnyOf((a, b)).spec_matches_negated(t) <==> !AnyOf((a, b)).spec_matches(t),
        Or(a, b).spec_matches_negated(t) <==> !Or(a, b).spec_matches(t),
{
}

/// Filters that decide on the kind set alone keep every row of a visited
/// archetype; a tuple applies its parts one after another, in order.
pub proof fn lemma_filter_rows_compose<A: QueryFilter, B: QueryFilter, C: QueryFilter, S: StructuralQueryFilter, U: StructuralQueryFilter>(
    a: A,
    b: B,
    c: C,
    s: S,
    u: U,
    x: ComponentId,
    markers: Seq<MarkerColumn>,
    rows: Seq<usize>,
    ctx: ReadContext,
)
    ensures
        With(x).spec_filter_rows(markers, rows, ctx) == rows,
        Without(x).spec_filter_rows(markers, rows, ctx) == rows,
        EmptyQueryFilter.spec_filter_rows(markers, rows, ctx) == rows,
        Or(s, u).spec_filter_rows(markers, rows, ctx) == rows,
        Not(s).spec_filter_rows(markers, rows, ctx) == rows,
        AnyOf((s, u)).spec_filter_rows(markers, rows, ctx) == rows,
        (a,).spec_filter_rows(markers, rows, ctx) == a.spec_filter_rows(markers, rows, ctx),
        (a, b).spec_filter_rows(markers, rows, ctx) == b.spec_filter_rows(markers, a.spec_filter_rows(markers, rows, ctx), ctx),
        (a, b, c).spec_filter_rows(markers, rows, ctx) == c.spec_filter_rows(
            markers,
            (a, b).spec_filter_rows(markers, rows, ctx),
            ctx,
        ),
{
}

/// A change filter keeps exactly the given rows whose stamp the reader
/// sees, and an addition filter exactly those whose addition slot read
/// this frame is set; neither adds a row.
pub proof fn lemma_tracking_filters_keep_marked_rows(
    component: ComponentId,
    marker: ComponentId,
    markers: Seq<MarkerColumn>,
    rows: Seq<usize>,
    ctx: ReadContext,
    r: usize,
)
    ensures
        (Changed { component, marker }).spec_filter_rows(markers, rows, ctx).contains(r) <==> rows.contains(r)
            && row_stamped(markers, marker, r, ctx),
        (Added { component, marker }).spec_filter_rows(markers, rows, ctx).contains(r) <==> rows.contains(r)
            && row_marked(markers, marker, r, ctx.read_slot),
        (Changed { component, marker }).spec_filter_rows(markers, rows, ctx).len() <= rows.len(),
        (Added { component, marker }).spec_filter_rows(markers, rows, ctx).len() <= rows.len(),
{
    let p = |q: usize| row_stamped(markers, marker, q, ctx);
    let p2 = |q: usize| row_marked(markers, marker, q, ctx.read_slot);
    rows.lemma_filter_len(p);
    rows.lemma_filter_len(p2);
    if rows.filter(p).contains(r) {
        rows.lemma_filter_contains_rev(p, r);
    }
    if rows.contains(r) && p(r) {
        let j = choose|j: int| 0 <= j < rows.len() && rows[j] == r;
        rows.lemma_filter_contains(p, j);
    }
    if rows.filter(p2).contains(r) {
        rows.lemma_filter_contains_rev(p2, r);
    }
    if rows.contains(r) && p2(r) {
        let j = choose|j: int| 0 <= j < rows.len() && rows[j] == r;
        rows.lemma_filter_contains(p2, j);
    }
}


/// A kind occurs in the common part of two declarations exactly when it
/// occurs in both.
pub proof fn lemma_common_is_shared(a: Seq<ComponentId>, b: Seq<ComponentId>, k: ComponentId)
    ensures
        common(a, b).contains(k) <==> a.contains(k) && b.contains(k),
{
    let p = |f: ComponentId| b.contains(f);
    if common(a, b).contains(k) {
        a.lemma_filter_contains_rev(p, k);
    }
    if a.contains(k) && b.contains(k) {
        let j = choose|j: int| 0 <= j < a.len() && a[j] == k;
        a.lemma_filter_contains(p, j);
    }
}

/// What each filter declares for access checking: `With(x)` requires `x`,
/// `Without(x)` excludes it, a change or addition filter requires its
/// marker, `Not` swaps what its filter requires and excludes, a tuple
/// declares all that its parts declare, in order, and `Or` and `AnyOf`
/// require (or exclude) exactly the kinds that all their parts require (or
/// exclude).
pub proof fn lemma_filter_declarations<A: StructuralQueryFilter, B: StructuralQueryFilter, C: StructuralQueryFilter>(
    a: A,
    b: B,
    c: C,
    x: ComponentId,
    marker: ComponentId,
    k: ComponentId,
)
    ensures
        With(x).spec_withs() == seq![x] && With(x).spec_withouts().len() == 0,
        Without(x).spec_withouts() == seq![x] && Without(x).spec_withs().len() == 0,
        EmptyQueryFilter.spec_withs().len() == 0 && EmptyQueryFilter.spec_withouts().len() == 0,
        (Changed { component: x, marker }).spec_withs() == seq![marker],
        (Added { component: x, marker }).spec_withs() == seq![marker],
        Not(a).spec_withs() == a.spec_withouts() && Not(a).spec_withouts() == a.spec_withs(),
        (a, b).spec_withs() == a.spec_withs() + b.spec_withs(),
        (a, b).spec_withouts() == a.spec_withouts() + b.spec_withouts(),
        (a, b, c).spec_withs() == a.spec_withs() + b.spec_withs() + c.spec_withs(),
        (a, b, c).spec_withouts() == a.spec_withouts() + b.spec_withouts() + c.spec_withouts(),
        Or(a, b).spec_withs().contains(k) <==> a.spec_withs().contains(k) && b.spec_withs().contains(k),
        Or(a, b).spec_withouts().contains(k) <==> a.spec_withouts().contains(k) && b.spec_withouts().contains(k),
        AnyOf((a, b)).spec_withs().contains(k) <==> a.spec_withs().contains(k) && b.spec_withs().contains(k),
        AnyOf((a, b, c)).spec_withs().contains(k) <==> a.spec_withs().contains(k) && b.spec_withs().contains(k)
            && c.spec_withs().contains(k),
        AnyOf((a, b, c)).spec_withouts().contains(k) <==> a.spec_withouts().contains(k)
            && b.spec_withouts().contains(k) && c.spec_withouts().contains(k),
{
    lemma_common_is_shared(a.spec_withs(), b.spec_withs(), k);
    lemma_common_is_shared(a.spec_withouts(), b.spec_withouts(), k);
    lemma_common_is_shared(common(a.spec_withs(), b.spec_withs()), c.spec_withs(), k);
    lemma_common_is_shared(common(a.spec_withouts(), b.spec_withouts()), c.spec_withouts(), k);
}

/// Declaring a filter registers the components whose markers it reads: a
/// change filter leaves its component tracked for changes, an addition
/// filter for additions, structural filters register nothing, and a tuple
/// registers its parts in order.
pub proof fn lemma_filter_registrations<A: QueryFilter, B: QueryFilter, C: QueryFilter>(
    a: A,
    b: B,
    c: C,
    x: ComponentId,
    marker: ComponentId,
    t: Seq<TrackedEntry>,
)
    ensures
        is_tracked((Changed { component: x, marker }).spec_register(t), x, MarkerKind::Changed),
        is_tracked((Added { component: x, marker }).spec_register(t), x, MarkerKind::Added),
        With(x).spec_register(t) == t,
        Without(x).spec_register(t) == t,
        (a, b).spec_register(t) == b.spec_register(a.spec_register(t)),
        (a, b, c).spec_register(t) == c.spec_register(b.spec_register(a.spec_register(t))),
{
    let t1 = (Changed { component: x, marker }).spec_register(t);
    if !is_tracked(t, x, MarkerKind::Changed) {
        assert(t1[t.len() as int].0 == x && t1[t.len() as int].2 == MarkerKind::Changed);
    }
    let t2 = (Added { component: x, marker }).spec_register(t);
    if !is_tracked(t, x, MarkerKind::Added) {
        assert(t2[t.len() as int].0 == x && t2[t.len() as int].2 == MarkerKind::Added);
    }
}

} // verus!
