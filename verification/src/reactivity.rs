//! Change and addition tracking.
//!
//! A change marker is a stamp: the generation in which the component was
//! last written and the system that wrote it. A reading system decides from
//! its own id and last-run generation whether it has seen the write (see
//! `generation::mark_visible`): a later system of the same frame sees it at
//! once, an earlier one in the next frame. Stamps two generations old are
//! cleared at the end of a frame.
//!
//! An addition marker has two slots. During a frame, new rows set the write
//! slot while queries read the other one; at the end of the frame the slots
//! swap roles and the new write slot is cleared, so an addition is reported
//! for exactly the frame after the one in which it happened.
use crate::generation::{mark_visible, previous_generation, GenerationRing};
use crate::validation::ComponentId;
use vstd::prelude::*;

verus! {

/// Which of the two marker slots is read this frame; the other is written.
pub struct CurrentBufferIdx {
    pub(crate) idx: u8,
}

impl View for CurrentBufferIdx {
    type V = u8;

    closed spec fn view(&self) -> u8 {
        self.idx
    }
}

/// The slot written while `read` is the slot being read.
pub open spec fn write_slot(read: u8) -> u8 {
    if read == 0 {
        1
    } else {
        0
    }
}

/// The read slot after the end of a frame.
pub open spec fn advanced(read: u8) -> u8 {
    if read == 1 {
        0
    } else {
        1
    }
}

impl CurrentBufferIdx {
    /// The state at start-up: slot 1 is read, slot 0 is written.
    pub fn new() -> (r: CurrentBufferIdx)
        ensures
            r@ == 1,
            r.wf(),
    {
        CurrentBufferIdx { idx: 1 }
    }

    pub closed spec fn wf(&self) -> bool {
        self.idx < 2
    }

    pub fn current_read_idx(&self) -> (r: u8)
        ensures
            r == self@,
            self.wf() ==> r < 2,
    {
        self.idx
    }

    pub fn current_write_idx(&self) -> (r: u8)
        ensures
            r == write_slot(self@),
            r < 2,
    {
        if self.idx == 0 {
            1
        } else {
            0
        }
    }

    /// Swaps the roles of the two slots.
    pub fn advance(&mut self)
        ensures
            final(self)@ == advanced(old(self)@),
            final(self).wf(),
    {
        let next_idx = if self.idx == 1 {
            0
        } else {
            1
        };
        self.idx = next_idx;
    }
}

/// A change marker: the generation of the last write (`0` for never) and
/// the id of the system that made it.
#[derive(Clone, Copy)]
pub struct ChangedMarker {
    pub(crate) generation: u8,
    pub(crate) author: u32,
}

/// The two slots of an addition marker.
#[derive(Clone, Copy)]
pub struct AddedMarker {
    pub(crate) added_marker: [bool; 2],
}

impl View for ChangedMarker {
    type V = (u8, u32);

    closed spec fn view(&self) -> (u8, u32) {
        (self.generation, self.author)
    }
}

impl View for AddedMarker {
    type V = Seq<bool>;

    closed spec fn view(&self) -> Seq<bool> {
        self.added_marker@
    }
}

impl ChangedMarker {
    /// The marker of a freshly stored component: never written.
    pub fn new() -> (r: ChangedMarker)
        ensures
            r@ == (0u8, 0u32),
    {
        ChangedMarker { generation: 0, author: 0 }
    }

    /// The generation of the last write, `0` for never.
    pub fn generation(&self) -> (r: u8)
        ensures
            r == self@.0,
    {
        self.generation
    }

    /// The system that made the last write.
    pub fn author(&self) -> (r: u32)
        ensures
            r == self@.1,
    {
        self.author
    }
}

impl AddedMarker {
    /// The marker of a freshly stored component: added, in the write slot.
    pub fn new(write_idx: u8) -> (r: AddedMarker)
        requires
            write_idx < 2,
        ensures
            r@ == seq![false, false].update(write_idx as int, true),
    {
        let mut added_marker = [false, false];
        added_marker[write_idx as usize] = true;
        let r = AddedMarker { added_marker };
        assert(r@ =~= seq![false, false].update(write_idx as int, true));
        r
    }

    /// Slot `i` of the marker.
    pub fn slot(&self, i: usize) -> (r: bool)
        requires
            i < 2,
        ensures
            r == self@[i as int],
    {
        self.added_marker[i]
    }
}

/// Which kind of marker a tracked component keeps.
#[derive(Clone, Copy, Debug, PartialEq, Eq, Structural)]
pub enum MarkerKind {
    Changed,
    Added,
}

/// The markers of one tracked component in one archetype, one per row.
#[allow(inconsistent_fields)]
pub enum MarkerColumn {
    Changed { marker_id: ComponentId, rows: Vec<ChangedMarker> },
    Added { marker_id: ComponentId, rows: Vec<AddedMarker> },
}

/// The slots of every row (of an addition marker column).
pub type MarkerRows = Seq<Seq<bool>>;

/// The stamps of every row (of a change marker column).
pub type Stamps = Seq<(u8, u32)>;

/// What a reading system brings to a query: the addition slot read this
/// frame, the current generation, the generation in which the system last
/// ran, and its id.
#[derive(Clone, Copy, Debug)]
pub struct ReadContext {
    pub read_slot: u8,
    pub generation: u8,
    pub last_run: u8,
    pub system_id: u32,
}

/// The reader `ctx` sees the write stamped `stamp`.
pub open spec fn stamp_seen(stamp: (u8, u32), ctx: ReadContext) -> bool {
    mark_visible(stamp.0, stamp.1, ctx.generation, ctx.last_run, previous_generation(ctx.generation), ctx.system_id)
}

/// Stamps two generations older than `current` cleared to "never".
pub open spec fn stale_cleared(stamps: Stamps, current: u8) -> Stamps {
    Seq::new(
        stamps.len(),
        |r: int|
            if stamps[r].0 == previous_generation(previous_generation(current)) {
                (0u8, 0u32)
            } else {
                stamps[r]
            },
    )
}

/// Every row with slot `slot` cleared.
pub open spec fn cleared(rows: MarkerRows, slot: int) -> MarkerRows {
    Seq::new(rows.len(), |r: int| rows[r].update(slot, false))
}

/// Row `row` with slot `slot` set.
pub open spec fn marked(rows: MarkerRows, row: int, slot: int) -> MarkerRows {
    rows.update(row, rows[row].update(slot, true))
}

/// Every row has two slots.
pub open spec fn well_shaped(rows: MarkerRows) -> bool {
    forall|r: int| 0 <= r < rows.len() ==> #[trigger] rows[r].len() == 2
}

impl MarkerColumn {
    /// The slots of every row; a change marker keeps a stamp in place of
    /// slots, and its slots read as unset.
    pub closed spec fn rows(&self) -> MarkerRows {
        match self {
            MarkerColumn::Changed { rows, .. } => Seq::new(rows@.len(), |r: int| seq![false, false]),
            MarkerColumn::Added { rows, .. } => Seq::new(rows@.len(), |r: int| rows@[r]@),
        }
    }

    /// The stamp of every row; an addition marker's stamps read as "never".
    pub closed spec fn stamps(&self) -> Stamps {
        match self {
            MarkerColumn::Changed { rows, .. } => Seq::new(rows@.len(), |r: int| rows@[r]@),
            MarkerColumn::Added { rows, .. } => Seq::new(rows@.len(), |r: int| (0u8, 0u32)),
        }
    }

    pub closed spec fn spec_marker_id(&self) -> ComponentId {
        match self {
            MarkerColumn::Changed { marker_id, .. } => *marker_id,
            MarkerColumn::Added { marker_id, .. } => *marker_id,
        }
    }

    pub closed spec fn spec_kind(&self) -> MarkerKind {
        match self {
            MarkerColumn::Changed { .. } => MarkerKind::Changed,
            MarkerColumn::Added { .. } => MarkerKind::Added,
        }
    }

    pub proof fn lemma_well_shaped(&self)
        ensures
            well_shaped(self.rows()),
            self.stamps().len() == self.rows().len(),
    {
    }

    /// An empty column of the given kind.
    pub fn new(marker_id: ComponentId, kind: MarkerKind) -> (r: MarkerColumn)
        ensures
            r.rows() == Seq::<Seq<bool>>::empty(),
            r.stamps() == Seq::<(u8, u32)>::empty(),
            r.spec_marker_id() == marker_id,
            r.spec_kind() == kind,
    {
        let r = match kind {
            MarkerKind::Changed => MarkerColumn::Changed { marker_id, rows: Vec::new() },
            MarkerKind::Added => MarkerColumn::Added { marker_id, rows: Vec::new() },
        };
        assert(r.rows() =~= Seq::<Seq<bool>>::empty());
        assert(r.stamps() =~= Seq::<(u8, u32)>::empty());
        r
    }

    pub fn marker_id(&self) -> (r: ComponentId)
        ensures
            r == self.spec_marker_id(),
    {
        match self {
            MarkerColumn::Changed { marker_id, .. } => *marker_id,
            MarkerColumn::Added { marker_id, .. } => *marker_id,
        }
    }

    pub fn kind(&self) -> (r: MarkerKind)
        ensures
            r == self.spec_kind(),
    {
        match self {
            MarkerColumn::Changed { .. } => MarkerKind::Changed,
            MarkerColumn::Added { .. } => MarkerKind::Added,
        }
    }

    pub fn len(&self) -> (r: usize)
        ensures
            r == self.rows().len(),
    {
        match self {
            MarkerColumn::Changed { rows, .. } => rows.len(),
            MarkerColumn::Added { rows, .. } => rows.len(),
        }
    }

    /// Appends the marker of a new row: unchanged for a change marker, added
    /// in the write slot for an addition marker.
    pub fn push_default_marker(&mut self, write_idx: u8)
        requires
            write_idx < 2,
        ensures
            final(self).spec_marker_id() == old(self).spec_marker_id(),
            final(self).spec_kind() == old(self).spec_kind(),
            final(self).rows() == old(self).rows().push(
                if old(self).spec_kind() == MarkerKind::Added {
                    seq![false, false].update(write_idx as int, true)
                } else {
                    seq![false, false]
                },
            ),
            final(self).stamps() == old(self).stamps().push((0u8, 0u32)),
    {
        match self {
            MarkerColumn::Changed { rows, .. } => {
                rows.push(ChangedMarker::new());
            },
            MarkerColumn::Added { rows, .. } => {
                rows.push(AddedMarker::new(write_idx));
            },
        }
        assert(self.rows() =~= old(self).rows().push(
            if old(self).spec_kind() == MarkerKind::Added {
                seq![false, false].update(write_idx as int, true)
            } else {
                seq![false, false]
            },
        ));
        assert(self.stamps() =~= old(self).stamps().push((0u8, 0u32)));
    }

    /// Clears slot `write_idx` of every row; stamps are left alone.
    pub fn clear_column_markers(&mut self, write_idx: u8)
        requires
            write_idx < 2,
        ensures
            final(self).spec_marker_id() == old(self).spec_marker_id(),
            final(self).spec_kind() == old(self).spec_kind(),
            final(self).rows() == cleared(old(self).rows(), write_idx as int),
            final(self).stamps() == old(self).stamps(),
    {
        match self {
            MarkerColumn::Changed { .. } => {
                assert(seq![false, false].update(write_idx as int, false) =~= seq![false, false]);
            },
            MarkerColumn::Added { rows, .. } => {
                let ghost start = rows@;
                let mut i: usize = 0;
                while i < rows.len()
                    invariant
                        i <= rows@.len(),
                        write_idx < 2,
                        rows@.len() == start.len(),
                        forall|r: int| 0 <= r < i ==> #[trigger] rows@[r]@ == start[r]@.update(write_idx as int, false),
                        forall|r: int| i <= r < rows@.len() ==> #[trigger] rows@[r] == start[r],
                    decreases rows@.len() - i,
                {
                    let mut m = rows[i];
                    m.added_marker[write_idx as usize] = false;
                    rows.set(i, m);
                    i += 1;
                }
            },
        }
        assert(self.rows() =~= cleared(old(self).rows(), write_idx as int));
        assert(self.stamps() =~= old(self).stamps());
    }

    /// Resets every stamp two generations older than `current` to "never".
    pub fn clear_stale_stamps(&mut self, current: u8)
        ensures
            final(self).spec_marker_id() == old(self).spec_marker_id(),
            final(self).spec_kind() == old(self).spec_kind(),
            final(self).rows() == old(self).rows(),
            final(self).stamps() == stale_cleared(old(self).stamps(), current),
    {
        let stale = GenerationRing::stale_threshold(current);
        match self {
            MarkerColumn::Changed { rows, .. } => {
                let ghost start = rows@;
                let mut i: usize = 0;
                while i < rows.len()
                    invariant
                        i <= rows@.len(),
                        stale == previous_generation(previous_generation(current)),
                        rows@.len() == start.len(),
                        forall|r: int| 0 <= r < i ==> #[trigger] rows@[r]@ == (if start[r]@.0 == stale {
                            (0u8, 0u32)
                        } else {
                            start[r]@
                        }),
                        forall|r: int| i <= r < rows@.len() ==> #[trigger] rows@[r] == start[r],
                    decreases rows@.len() - i,
                {
                    if rows[i].generation == stale {
                        rows.set(i, ChangedMarker { generation: 0, author: 0 });
                    }
                    i += 1;
                }
            },
            MarkerColumn::Added { .. } => {},
        }
        assert(self.rows() =~= old(self).rows());
        assert(self.stamps() =~= stale_cleared(old(self).stamps(), current));
    }

    /// Removes row `row`, moving the last row into its place.
    pub fn swap_remove_row(&mut self, row: usize)
        requires
            row < old(self).rows().len(),
        ensures
            final(self).spec_marker_id() == old(self).spec_marker_id(),
            final(self).spec_kind() == old(self).spec_kind(),
            final(self).rows() == old(self).rows().update(row as int, old(self).rows().last()).drop_last(),
            final(self).stamps() == old(self).stamps().update(row as int, old(self).stamps().last()).drop_last(),
    {
        match self {
            MarkerColumn::Changed { rows, .. } => {
                rows.swap_remove(row);
            },
            MarkerColumn::Added { rows, .. } => {
                rows.swap_remove(row);
            },
        }
        assert(self.rows() =~= old(self).rows().update(row as int, old(self).rows().last()).drop_last());
        assert(self.stamps() =~= old(self).stamps().update(row as int, old(self).stamps().last()).drop_last());
    }

    /// Stamps row `row` of a change marker column as written in
    /// `generation` by system `author`; an addition marker column is left
    /// alone.
    pub fn stamp(&mut self, row: usize, generation: u8, author: u32)
        requires
            row < old(self).rows().len(),
        ensures
            final(self).spec_marker_id() == old(self).spec_marker_id(),
            final(self).spec_kind() == old(self).spec_kind(),
            final(self).rows() == old(self).rows(),
            final(self).stamps() == if old(self).spec_kind() == MarkerKind::Changed {
                old(self).stamps().update(row as int, (generation, author))
            } else {
                old(self).stamps()
            },
    {
        match self {
            MarkerColumn::Changed { rows, .. } => {
                rows.set(row, ChangedMarker { generation, author });
            },
            MarkerColumn::Added { .. } => {},
        }
        assert(self.rows() =~= old(self).rows());
        assert(self.stamps() =~= if old(self).spec_kind() == MarkerKind::Changed {
            old(self).stamps().update(row as int, (generation, author))
        } else {
            old(self).stamps()
        });
    }

    /// The stamp of row `row`.
    pub fn stamp_of(&self, row: usize) -> (r: (u8, u32))
        requires
            row < self.rows().len(),
        ensures
            r == self.stamps()[row as int],
    {
        match self {
            MarkerColumn::Changed { rows, .. } => (rows[row].generation, rows[row].author),
            MarkerColumn::Added { .. } => (0, 0),
        }
    }

    /// Keeps the row numbers whose stamp the reader `ctx` sees, in their
    /// order.
    pub fn filter_stamped(&self, indices: &mut Vec<usize>, ctx: &ReadContext)
        requires
            forall|k: int| 0 <= k < old(indices)@.len() ==> (old(indices)@[k] as int) < self.rows().len(),
        ensures
            final(indices)@ == old(indices)@.filter(|r: usize| stamp_seen(self.stamps()[r as int], *ctx)),
    {
        let ghost pred = |r: usize| stamp_seen(self.stamps()[r as int], *ctx);
        let ghost start = indices@;
        let previous = GenerationRing::previous(ctx.generation);
        let mut kept: Vec<usize> = Vec::new();
        let mut k: usize = 0;
        while k < indices.len()
            invariant
                k <= start.len(),
                indices@ == start,
                previous == previous_generation(ctx.generation),
                pred == (|r: usize| stamp_seen(self.stamps()[r as int], *ctx)),
                forall|j: int| 0 <= j < start.len() ==> (start[j] as int) < self.rows().len(),
                kept@ == start.subrange(0, k as int).filter(pred),
            decreases start.len() - k,
        {
            let row = indices[k];
            proof {
                assert(start.subrange(0, k as int + 1).drop_last() == start.subrange(0, k as int));
                reveal(Seq::filter);
            }
            let st = self.stamp_of(row);
            if crate::generation::detect_changed(st.0, st.1, ctx.generation, ctx.last_run, previous, ctx.system_id) {
                kept.push(row);
            }
            k += 1;
        }
        assert(start.subrange(0, start.len() as int) == start);
        *indices = kept;
    }

    /// Slot `read_idx` of row `row`.
    pub fn is_set(&self, row: usize, read_idx: u8) -> (r: bool)
        requires
            read_idx < 2,
            row < self.rows().len(),
        ensures
            r == self.rows()[row as int][read_idx as int],
    {
        match self {
            MarkerColumn::Changed { .. } => false,
            MarkerColumn::Added { rows, .. } => rows[row].added_marker[read_idx as usize],
        }
    }

    /// Keeps the row numbers whose slot `read_idx` is set, in their order.
    pub fn filter_indices(&self, indices: &mut Vec<usize>, read_idx: u8)
        requires
            read_idx < 2,
            forall|k: int| 0 <= k < old(indices)@.len() ==> (old(indices)@[k] as int) < self.rows().len(),
        ensures
            final(indices)@ == old(indices)@.filter(|r: usize| self.rows()[r as int][read_idx as int]),
    {
        let ghost pred = |r: usize| self.rows()[r as int][read_idx as int];
        let ghost start = indices@;
        let mut kept: Vec<usize> = Vec::new();
        let mut k: usize = 0;
        while k < indices.len()
            invariant
                k <= start.len(),
                indices@ == start,
                read_idx < 2,
                pred == (|r: usize| self.rows()[r as int][read_idx as int]),
                forall|j: int| 0 <= j < start.len() ==> (start[j] as int) < self.rows().len(),
                kept@ == start.subrange(0, k as int).filter(pred),
            decreases start.len() - k,
        {
            let row = indices[k];
            proof {
                assert(start.subrange(0, k as int + 1).drop_last() == start.subrange(0, k as int));
                reveal(Seq::filter);
            }
            if self.is_set(row, read_idx) {
                kept.push(row);
            }
            k += 1;
        }
        assert(start.subrange(0, start.len() as int) == start);
        *indices = kept;
    }
}

/// What a query sees of a change marker.
pub struct ChangedTracker {
    pub(crate) changed: bool,
}

impl ChangedTracker {
    /// The tracker of row `row`: whether the reader `ctx` has yet to see
    /// its last write.
    pub fn fetch(column: &MarkerColumn, row: usize, ctx: &ReadContext) -> (r: ChangedTracker)
        requires
            row < column.rows().len(),
        ensures
            r.spec_changed() == stamp_seen(column.stamps()[row as int], *ctx),
    {
        let st = column.stamp_of(row);
        let previous = GenerationRing::previous(ctx.generation);
        ChangedTracker {
            changed: crate::generation::detect_changed(st.0, st.1, ctx.generation, ctx.last_run, previous, ctx.system_id),
        }
    }

    pub closed spec fn spec_changed(&self) -> bool {
        self.changed
    }

    pub fn is_changed(&self) -> (r: bool)
        ensures
            r == self.spec_changed(),
    {
        self.changed
    }
}

/// What a query sees of an addition marker.
pub struct AddedTracker {
    pub(crate) added: bool,
}

impl AddedTracker {
    /// The tracker of row `row`: added in the frame before this one.
    pub fn fetch(column: &MarkerColumn, row: usize, read_idx: u8) -> (r: AddedTracker)
        requires
            read_idx < 2,
            row < column.rows().len(),
        ensures
            r.spec_added() == column.rows()[row as int][read_idx as int],
    {
        AddedTracker { added: column.is_set(row, read_idx) }
    }

    pub closed spec fn spec_added(&self) -> bool {
        self.added
    }

    pub fn is_added(&self) -> (r: bool)
        ensures
            r == self.spec_added(),
    {
        self.added
    }
}

/// A mutable component reached through a query: writing through it stamps
/// the component's change marker with the generation and the writing system.
pub struct Mut<'w, T> {
    pub(crate) value: &'w mut T,
    pub(crate) marker: Option<&'w mut ChangedMarker>,
    pub(crate) generation: u8,
    pub(crate) system_id: u32,
}

impl<'w, T> Mut<'w, T> {
    /// The component's current value.
    pub closed spec fn current(&self) -> T {
        *self.value
    }

    /// The generation and system that a write stamps.
    pub closed spec fn writer(&self) -> (u8, u32) {
        (self.generation, self.system_id)
    }

    /// The stamp of the marker, if the component is tracked.
    pub closed spec fn marker_stamp(&self) -> Option<(u8, u32)> {
        match &self.marker {
            Some(m) => Some((**m)@),
            None => None,
        }
    }

    /// Wraps a component and, when it is tracked, its marker.
    pub fn new(value: &'w mut T, marker: Option<&'w mut ChangedMarker>, generation: u8, system_id: u32) -> (r: Mut<'w, T>)
        ensures
            r.current() == *old(value),
            r.writer() == (generation, system_id),
            r.marker_stamp() == match marker {
                Some(m) => Some((*m)@),
                None => None::<(u8, u32)>,
            },
    {
        Mut { value, marker, generation, system_id }
    }

    /// Wraps a component whose changes are recorded in `marker`.
    pub fn with_marker(value: &'w mut T, marker: &'w mut ChangedMarker, generation: u8, system_id: u32) -> (r: Mut<'w, T>)
        ensures
            r.current() == *old(value),
            r.writer() == (generation, system_id),
            r.marker_stamp() == Some(old(marker)@),
    {
        Mut { value, marker: Some(marker), generation, system_id }
    }

    /// Wraps a component whose changes are not recorded.
    pub fn without_marker(value: &'w mut T, generation: u8, system_id: u32) -> (r: Mut<'w, T>)
        ensures
            r.current() == *old(value),
            r.writer() == (generation, system_id),
            r.marker_stamp() == None::<(u8, u32)>,
    {
        Mut { value, marker: None, generation, system_id }
    }

    /// The component, without touching the marker.
    pub fn as_ref(&self) -> (r: &T)
        ensures
            *r == self.current(),
    {
        &*self.value
    }

    /// The component for writing, without touching the marker.
    pub fn bypass_change_detection(&mut self) -> (r: &mut T)
        ensures
            *r == old(self).current(),
            final(self).current() == *final(r),
            final(self).writer() == old(self).writer(),
            final(self).marker_stamp() == old(self).marker_stamp(),
    {
        &mut *self.value
    }

    /// The component for writing; the marker, if the component is tracked,
    /// is stamped with the writer.
    pub fn get_mut(&mut self) -> (r: &mut T)
        ensures
            *r == old(self).current(),
            final(self).current() == *final(r),
            final(self).writer() == old(self).writer(),
            final(self).marker_stamp() == match old(self).marker_stamp() {
                Some(m) => Some(old(self).writer()),
                None => None,
            },
    {
        self.trigger_change_detection();
        &mut *self.value
    }

    /// Stamps the marker with the writer, if the component is tracked.
    pub fn trigger_change_detection(&mut self)
        ensures
            final(self).current() == old(self).current(),
            final(self).writer() == old(self).writer(),
            final(self).marker_stamp() == match old(self).marker_stamp() {
                Some(m) => Some(old(self).writer()),
                None => None,
            },
    {
        let generation = self.generation;
        let system_id = self.system_id;
        match &mut self.marker {
            Some(m) => {
                m.generation = generation;
                m.author = system_id;
            },
            None => {},
        }
    }
}

/// The slots of addition markers after the end-of-frame clearing of a frame
/// that read slot `read`.
pub open spec fn after_frame(rows: MarkerRows, read: u8) -> MarkerRows {
    cleared(rows, write_slot(advanced(read)) as int)
}

/// A row added during a frame (with the addition marker set in that frame's
/// write slot) is reported as added for exactly the next frame.
pub proof fn lemma_added_visible_for_one_frame(rows: MarkerRows, read: u8, next_frame: MarkerRows)
    requires
        read < 2,
        well_shaped(rows),
        next_frame.len() == rows.len() + 1,
        next_frame[rows.len() as int] == after_frame(
            rows.push(seq![false, false].update(write_slot(read) as int, true)),
            read,
        )[rows.len() as int],
    ensures
        !rows.push(seq![false, false].update(write_slot(read) as int, true))[rows.len() as int][read as int],
        after_frame(
            rows.push(seq![false, false].update(write_slot(read) as int, true)),
            read,
        )[rows.len() as int][advanced(read) as int],
        !after_frame(next_frame, advanced(read))[rows.len() as int][advanced(advanced(read)) as int],
{
}

/// The component kinds whose changes or additions are tracked, each with the
/// number of its marker and the kind of marker.
pub struct TrackedComponentMeta {
    pub component_id: ComponentId,
    pub marker_id: ComponentId,
    pub kind: MarkerKind,
}

/// The registry of tracked components: each component has at most one entry
/// per kind of marker (change or addition), the first registered.
pub struct TrackedComponents {
    pub(crate) metas: Vec<TrackedComponentMeta>,
}

impl View for TrackedComponents {
    type V = Seq<(ComponentId, ComponentId, MarkerKind)>;

    closed spec fn view(&self) -> Seq<(ComponentId, ComponentId, MarkerKind)> {
        Seq::new(self.metas@.len(), |i: int| (self.metas@[i].component_id, self.metas@[i].marker_id, self.metas@[i].kind))
    }
}

/// `component` is registered in `t` with markers of kind `kind`.
pub open spec fn is_tracked(
    t: Seq<(ComponentId, ComponentId, MarkerKind)>,
    component: ComponentId,
    kind: MarkerKind,
) -> bool {
    exists|i: int| 0 <= i < t.len() && (#[trigger] t[i]).0 == component && t[i].2 == kind
}

impl TrackedComponents {
    pub fn new() -> (r: TrackedComponents)
        ensures
            r@ == Seq::<(ComponentId, ComponentId, MarkerKind)>::empty(),
    {
        let r = TrackedComponents { metas: Vec::new() };
        assert(r@ =~= Seq::<(ComponentId, ComponentId, MarkerKind)>::empty());
        r
    }

    pub fn len(&self) -> (r: usize)
        ensures
            r == self@.len(),
    {
        self.metas.len()
    }

    /// The entry at position `i`.
    pub fn get(&self, i: usize) -> (r: &TrackedComponentMeta)
        requires
            i < self@.len(),
        ensures
            (r.component_id, r.marker_id, r.kind) == self@[i as int],
    {
        &self.metas[i]
    }

    fn register(&mut self, component_id: ComponentId, marker_id: ComponentId, kind: MarkerKind)
        ensures
            final(self)@ == if is_tracked(old(self)@, component_id, kind) {
                old(self)@
            } else {
                old(self)@.push((component_id, marker_id, kind))
            },
    {
        let mut i: usize = 0;
        while i < self.metas.len()
            invariant
                i <= self@.len(),
                forall|k: int| 0 <= k < i ==> !(self@[k].0 == component_id && self@[k].2 == kind),
            decreases self@.len() - i,
        {
            if self.metas[i].component_id == component_id && self.metas[i].kind == kind {
                assert(self@[i as int].0 == component_id && self@[i as int].2 == kind);
                return;
            }
            i += 1;
        }
        self.metas.push(TrackedComponentMeta { component_id, marker_id, kind });
        assert(self@ =~= old(self)@.push((component_id, marker_id, kind)));
    }

    /// Tracks changes of `component_id` with markers numbered `marker_id`.
    pub fn register_tracked_component(&mut self, component_id: ComponentId, marker_id: ComponentId)
        ensures
            final(self)@ == if is_tracked(old(self)@, component_id, MarkerKind::Changed) {
                old(self)@
            } else {
                old(self)@.push((component_id, marker_id, MarkerKind::Changed))
            },
    {
        self.register(component_id, marker_id, MarkerKind::Changed)
    }

    /// Tracks additions of `component_id` with markers numbered `marker_id`.
    pub fn register_added_tracked_component(&mut self, component_id: ComponentId, marker_id: ComponentId)
        ensures
            final(self)@ == if is_tracked(old(self)@, component_id, MarkerKind::Added) {
                old(self)@
            } else {
                old(self)@.push((component_id, marker_id, MarkerKind::Added))
            },
    {
        self.register(component_id, marker_id, MarkerKind::Added)
    }
}

} // verus!
