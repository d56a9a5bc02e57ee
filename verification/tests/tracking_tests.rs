use venix::archetypes::{ArchetypeManager, ComponentColumn};
use venix::events::{EventBuffer, EventReader, EventWriter, TrackedEvents};
use venix::filter::{Changed, EmptyQueryFilter, Not, Or, QueryFilter, With, Without};
use venix::generation::{detect_changed, read_visible, should_be_read, Event, EventQueue, GenerationRing};
use venix::reactivity::{
    AddedTracker, ChangedMarker, ChangedTracker, CurrentBufferIdx, MarkerColumn, MarkerKind, Mut,
    ReadContext,
    TrackedComponents,
};
use venix::registry::{Registry, RegistryCell};
use venix::archetypes::ArchetypeId;
use venix::type_set::TypeSet;
use venix::validation::{
    check_system_access, AccessConflict, AccessHashSet, AccessVec, FunctionGenerationData,
    ParamAccess, SystemId,
};
use venix::system_data::{FunctionData, SystemData, SystemExt};

fn set(ids: &[u64]) -> AccessHashSet {
    let mut s = AccessHashSet::new();
    for &i in ids {
        s.insert(i);
    }
    s
}

#[test]
fn buffer_index_alternates() {
    let mut b = CurrentBufferIdx::new();
    assert_eq!(b.current_read_idx(), 1);
    assert_eq!(b.current_write_idx(), 0);
    b.advance();
    assert_eq!(b.current_read_idx(), 0);
    assert_eq!(b.current_write_idx(), 1);
}

fn ctx(read_slot: u8, generation: u8, last_run: u8, system_id: u32) -> ReadContext {
    ReadContext { read_slot, generation, last_run, system_id }
}

#[test]
fn marker_column_round_trip() {
    let mut col = MarkerColumn::new(101, MarkerKind::Changed);
    col.push_default_marker(0);
    col.push_default_marker(0);
    assert_eq!(col.stamp_of(1), (0, 0));
    // System 3 writes row 1 in generation 5.
    col.stamp(1, 5, 3);
    assert_eq!(col.stamp_of(1), (5, 3));
    assert!(!col.is_set(1, 0) && !col.is_set(1, 1));
    // A later system of the same generation sees it, an earlier one not yet.
    let mut rows = vec![0, 1];
    col.filter_stamped(&mut rows, &ctx(0, 5, 4, 7));
    assert_eq!(rows, vec![1]);
    let mut rows = vec![0, 1];
    col.filter_stamped(&mut rows, &ctx(0, 5, 4, 2));
    assert!(rows.is_empty());
    assert!(ChangedTracker::fetch(&col, 1, &ctx(0, 5, 4, 7)).is_changed());
    assert!(!ChangedTracker::fetch(&col, 0, &ctx(0, 5, 4, 7)).is_changed());
    // In generation 6 the earlier system sees it, the later one does not again.
    assert!(ChangedTracker::fetch(&col, 1, &ctx(0, 6, 5, 2)).is_changed());
    assert!(!ChangedTracker::fetch(&col, 1, &ctx(0, 6, 5, 7)).is_changed());
    // Stamps of generation 5 are stale once generation 7 starts.
    col.clear_stale_stamps(6);
    assert_eq!(col.stamp_of(1), (5, 3));
    col.clear_stale_stamps(7);
    assert_eq!(col.stamp_of(1), (0, 0));

    let mut added = MarkerColumn::new(201, MarkerKind::Added);
    added.push_default_marker(1);
    assert!(added.is_set(0, 1));
    assert!(AddedTracker::fetch(&added, 0, 1).is_added());
    assert!(!AddedTracker::fetch(&added, 0, 0).is_added());
    let mut rows = vec![0];
    added.filter_indices(&mut rows, 1);
    assert_eq!(rows, vec![0]);
    added.clear_column_markers(1);
    assert!(!added.is_set(0, 1));
}

#[test]
fn mut_stamps_only_when_written() {
    let mut value = 5i32;
    let mut marker = ChangedMarker::new();
    {
        let mut m = Mut::with_marker(&mut value, &mut marker, 4, 9);
        assert_eq!(*m.as_ref(), 5);
        *m.bypass_change_detection() = 6;
    }
    assert_eq!(value, 6);
    assert_eq!((marker.generation(), marker.author()), (0, 0));
    {
        let mut m = Mut::new(&mut value, Some(&mut marker), 4, 9);
        *m.get_mut() = 7;
    }
    assert_eq!(value, 7);
    assert_eq!((marker.generation(), marker.author()), (4, 9));
    let mut untracked = Mut::without_marker(&mut value, 4, 9);
    untracked.trigger_change_detection();
    *untracked.get_mut() = 8;
    assert_eq!(value, 8);
    let added = venix::reactivity::AddedMarker::new(1);
    assert!(added.slot(1) && !added.slot(0));
}

#[test]
fn tracked_components_are_keyed_by_component_and_kind() {
    let mut t = TrackedComponents::new();
    t.register_tracked_component(1, 101);
    t.register_added_tracked_component(1, 201);
    t.register_added_tracked_component(2, 202);
    assert_eq!(t.len(), 3);
    assert_eq!(t.get(0).marker_id, 101);
    assert_eq!(t.get(0).kind, MarkerKind::Changed);
    assert_eq!(t.get(1).marker_id, 201);
    assert_eq!(t.get(1).kind, MarkerKind::Added);
    assert_eq!(t.get(2).component_id, 2);
    // Registering the same component and kind again changes nothing.
    t.register_added_tracked_component(1, 201);
    t.register_tracked_component(1, 101);
    t.register_tracked_component(2, 102);
    assert_eq!(t.len(), 4);
    assert_eq!(t.get(3).kind, MarkerKind::Changed);
}

#[test]
fn or_declares_only_the_kinds_both_sides_require() {
    let mut withs: AccessVec<u64> = AccessVec::new();
    let mut withouts: AccessVec<u64> = AccessVec::new();
    let mut t = TrackedComponents::new();
    Or(With(1), With(2)).collect_filter(&mut withs, &mut withouts, &mut t);
    assert!(withs.as_slice().is_empty());
    assert!(withouts.as_slice().is_empty());
    Or((With(3), With(4)), (With(4), Without(5))).collect_filter(&mut withs, &mut withouts, &mut t);
    assert_eq!(withs.as_slice(), &[4]);
    assert!(withouts.as_slice().is_empty());
    Or(Without(6), (Without(6), With(7))).collect_filter(&mut withs, &mut withouts, &mut t);
    assert_eq!(withs.as_slice(), &[4]);
    assert_eq!(withouts.as_slice(), &[6]);
}

#[test]
fn or_with_a_conflicting_without_is_a_conflict() {
    // A query for &mut P over Or<With<X>, With<Y>> and one for &P over
    // Without<X> both reach an archetype holding P and Y.
    let mut t = TrackedComponents::new();
    let mut first = ParamAccess::new();
    first.writes.push(1);
    Or(With(10), With(11)).collect_filter(&mut first.with_filters, &mut first.without_filters, &mut t);
    let mut second = ParamAccess::new();
    second.reads.push(1);
    Without(10).collect_filter(&mut second.with_filters, &mut second.without_filters, &mut t);
    assert_eq!(check_system_access(&vec![first, second]), Err(AccessConflict::Component(0, 1)));
}

#[test]
fn changed_and_added_filters_on_one_component_both_register() {
    let mut withs: AccessVec<u64> = AccessVec::new();
    let mut withouts: AccessVec<u64> = AccessVec::new();
    let mut t = TrackedComponents::new();
    Changed { component: 1, marker: 101 }.collect_filter(&mut withs, &mut withouts, &mut t);
    venix::filter::Added { component: 1, marker: 201 }.collect_filter(&mut withs, &mut withouts, &mut t);
    assert_eq!(t.len(), 2);
    assert_eq!(t.get(0).kind, MarkerKind::Changed);
    assert_eq!(t.get(1).kind, MarkerKind::Added);
    assert_eq!(withs.as_slice(), &[101, 201]);
}

#[test]
fn event_buffer_readers_and_writers() {
    let mut buffer: EventBuffer<u32> = EventBuffer::new();
    {
        let mut writer = EventWriter::new(&mut buffer);
        writer.send(4);
        writer.send_batch(vec![5, 6]);
    }
    assert!(EventReader::new(&buffer).iter().is_empty());
    buffer.clear_events();
    let first = EventReader::new(&buffer);
    let second = EventReader::new(&buffer);
    assert_eq!(first.iter(), &[4, 5, 6]);
    assert_eq!(second.iter(), &[4, 5, 6]);
    buffer.clear_events();
    assert!(buffer.read().is_empty());
    let mut registered = TrackedEvents::new();
    registered.register_event(1, 11);
    registered.register_event(1, 12);
    assert_eq!(registered.len(), 1);
    assert_eq!(registered.event_id(0), 11);
}

#[test]
fn generation_ring_wraps_over_zero() {
    assert_eq!(GenerationRing::previous(5), 4);
    assert_eq!(GenerationRing::previous(1), 255);
    assert_eq!(GenerationRing::previous(0), 255);
    assert_eq!(GenerationRing::stale_threshold(2), 255);
    assert_eq!(GenerationRing::stale_threshold(1), 254);
}

#[test]
fn generation_change_detection_cases() {
    assert!(!detect_changed(0, 1, 5, 4, 4, 2));
    assert!(detect_changed(5, 1, 5, 4, 4, 2));
    assert!(!detect_changed(5, 3, 5, 4, 4, 2));
    assert!(!detect_changed(5, 1, 5, 5, 4, 2));
    assert!(detect_changed(4, 3, 5, 4, 4, 2));
    assert!(!detect_changed(4, 1, 5, 4, 4, 2));
    assert!(detect_changed(4, 1, 5, 3, 4, 2));
    assert!(!detect_changed(3, 1, 5, 3, 4, 2));
    assert_eq!(should_be_read(5, 1, 5, 4, 4, 2), detect_changed(5, 1, 5, 4, 4, 2));
    let queue = vec![Event::new(10, 5, 1), Event::new(11, 5, 3), Event::new(12, 2, 1)];
    let seen: Vec<u32> = read_visible(&queue, 5, 4, 4, 2).into_iter().copied().collect();
    assert_eq!(seen, vec![10]);
}

#[test]
fn access_conflicts_are_found() {
    let mut a = ParamAccess::new();
    a.writes.push(1);
    a.reads.push(1);
    assert_eq!(check_system_access(&vec![a]), Err(AccessConflict::IntraParam(0)));

    let mut w1 = ParamAccess::new();
    w1.writes.push(1);
    let mut r1 = ParamAccess::new();
    r1.reads.push(1);
    assert_eq!(check_system_access(&vec![w1, r1]), Err(AccessConflict::Component(0, 1)));

    let mut w2 = ParamAccess::new();
    w2.writes.push(1);
    w2.with_filters.push(7);
    let mut r2 = ParamAccess::new();
    r2.reads.push(1);
    r2.without_filters.push(7);
    assert_eq!(check_system_access(&vec![w2, r2]), Ok(()));

    let mut res_w = ParamAccess::new();
    res_w.res_writes.push(3);
    let mut res_r = ParamAccess::new();
    res_r.res_reads.push(3);
    assert_eq!(check_system_access(&vec![res_r, res_w]), Err(AccessConflict::Resource(0, 1)));

    let mut dup = ParamAccess::new();
    dup.writes.push(2);
    dup.writes.push(2);
    assert_eq!(check_system_access(&vec![dup]), Err(AccessConflict::IntraParam(0)));
}

#[test]
fn access_vec_keeps_push_order() {
    let mut v: AccessVec<u64> = AccessVec::new();
    v.push(3);
    v.push(1);
    assert_eq!(v.as_slice(), &[3, 1]);
    assert_eq!(v.iter().copied().collect::<Vec<u64>>(), vec![3, 1]);
    let d: AccessVec<u64> = AccessVec::default();
    assert!(d.as_slice().is_empty());
}

#[test]
fn system_id_reads_generation_data() {
    let mut data = FunctionGenerationData::new();
    data.system_id = 12;
    assert_eq!(SystemId::extract(&data).get_id(), 12);
    assert_eq!(SystemId::new(3).get_id(), 3);
    assert!(SystemId::get_access().reads.as_slice().is_empty());
}

#[test]
fn type_set_keeps_insertion_order() {
    let mut t = TypeSet::new();
    assert!(t.insert(5));
    assert!(t.insert(2));
    assert!(!t.insert(5));
    assert!(t.insert(9));
    assert_eq!(t.len(), 3);
    assert_eq!((t.get(0), t.get(1), t.get(2)), (5, 2, 9));
    assert!(t.remove(2));
    assert!(!t.remove(2));
    assert_eq!((t.get(0), t.get(1)), (5, 9));
    assert!(t.contains(9));
    assert!(!t.contains(2));
    let copy = t.duplicate();
    assert_eq!(copy.len(), 2);
    let from = TypeSet::from_slice(&[4, 4, 1]);
    assert_eq!(from.len(), 2);
}

#[test]
fn set_hash_ignores_order_and_is_not_the_identity() {
    let m: ArchetypeManager<i32> = ArchetypeManager::new();
    let a = TypeSet::from_slice(&[1, 2, 3]);
    let b = TypeSet::from_slice(&[3, 1, 2]);
    assert_eq!(m.calculate_hash(&a), m.calculate_hash(&b));
    let single = TypeSet::from_slice(&[1]);
    assert_ne!(m.calculate_hash(&single), 1);
    assert_eq!(m.calculate_hash(&single), 0x517cc1b727220a95);
    assert_eq!(m.calculate_hash(&TypeSet::new()), 0);
}

#[test]
fn component_column_moves_rows() {
    let mut c: ComponentColumn<i32> = ComponentColumn::new(1);
    c.push(10);
    c.push(20);
    c.push(30);
    assert_eq!(c.swap_remove_erased(0), 10);
    assert_eq!(*c.get(0), 30);
    let mut d = c.clone_empty();
    assert_eq!(d.len(), 0);
    assert_eq!(d.component(), 1);
    c.move_row_erased(1, &mut d);
    assert_eq!(*d.get(0), 20);
    assert_eq!(c.len(), 1);
}

#[test]
fn registry_clone_then_release_restores_count() {
    let mut w: venix::world::World<i32, u64, u32, u8> = venix::world::World::new();
    let e = w.spawn(&[1], vec!["A"], vec![0; 1]);
    let r = w.registry_mut();
    assert_eq!(r.get(0).handle_count, 1);
    let copy = r.clone_entity(&e);
    assert_eq!(r.get(0).handle_count, 2);
    r.release_entity(copy);
    assert_eq!(r.get(0).handle_count, 1);
    r.set_location(0, ArchetypeId(3), 7);
    assert_eq!(r.get(0).idx, 7);
    assert_eq!(r.get(0).archetype_id.id(), 3);
    r.decrement_handle(0);
    r.decrement_handle(0);
    assert_eq!(r.get(0).handle_count, u32::MAX);
    assert_eq!(e.registry_idx(), 0);
    let mut fresh = Registry::new();
    fresh.push(RegistryCell { archetype_id: ArchetypeId(0), idx: 0, handle_count: 1 });
    fresh.increment_handle(0);
    assert_eq!(fresh.get(0).handle_count, 2);
    assert_eq!(fresh.len(), 1);
}

#[test]
fn structural_filters_match_on_kinds() {
    let s = set(&[1, 2]);
    assert!(With(1).matches(&s));
    assert!(!Without(1).matches(&s));
    assert!(Not(With(3)).matches(&s));
    assert!(Not(Not(With(1))).matches(&s));
    assert!(Or(With(3), With(2)).matches(&s));
    assert!(!(With(1), With(3)).matches(&s));
    assert!(EmptyQueryFilter.matches(&s));
    // The negated form of a pair asks both negated forms.
    assert!(!(With(1), With(3)).matches_negated(&s));
    assert!((With(4), With(3)).matches_negated(&s));
    assert!(Changed { component: 1, marker: 2 }.matches(&s));
}

#[test]
fn not_swaps_required_and_excluded_kinds() {
    let mut withs: AccessVec<u64> = AccessVec::new();
    let mut withouts: AccessVec<u64> = AccessVec::new();
    let mut t = TrackedComponents::new();
    Not((With(1), Without(2))).collect_filter(&mut withs, &mut withouts, &mut t);
    assert_eq!(withs.as_slice(), &[2]);
    assert_eq!(withouts.as_slice(), &[1]);
    Changed { component: 5, marker: 105 }.collect_filter(&mut withs, &mut withouts, &mut t);
    assert_eq!(withs.as_slice(), &[2, 105]);
    assert_eq!(t.len(), 1);
}

#[test]
fn system_data_initialises_once() {
    let mut d: FunctionData<u32> = FunctionData::new();
    assert!(d.get_data(1).is_none());
    assert_eq!(*d.get_or_init(1, 5), 5);
    assert_eq!(*d.get_or_init(1, 9), 5);
    *d.get_or_init_mut(2, 1) += 1;
    assert_eq!(*d.get_data(2).unwrap(), 2);
    *d.get_data_mut(2).unwrap() = 7;
    assert_eq!(d.get_raw_data(2), Some(&7));
    d.insert_raw_data(3, 4);
    d.insert(3, 6);
    assert_eq!(d.get_raw_data(3), Some(&6));
}

#[test]
fn a_mark_is_seen_once_by_each_reader() {
    // Written in generation 5 by system 1; reader 0 runs before it, reader 2 after it.
    assert!(!detect_changed(5, 1, 5, 4, 4, 0));
    assert!(detect_changed(5, 1, 6, 5, 5, 0));
    assert!(!detect_changed(5, 1, 7, 6, 6, 0));
    assert!(detect_changed(5, 1, 5, 4, 4, 2));
    assert!(!detect_changed(5, 1, 6, 5, 5, 2));
    assert!(!detect_changed(255, 1, 2, 1, 1, 0));
    assert!(detect_changed(255, 1, 1, 255, 255, 0));
}

#[test]
fn stamped_events_are_read_once_and_cleared_when_stale() {
    let mut q: EventQueue<u32> = EventQueue::new();
    // System 1 sends in generation 5.
    q.send(7, 5, 1);
    // System 2 runs after it in generation 5 and sees it.
    let seen: Vec<u32> = q.read(5, 4, 4, 2).into_iter().copied().collect();
    assert_eq!(seen, vec![7]);
    // System 0 ran before the sender; it sees the event in generation 6.
    assert!(q.read(5, 4, 4, 0).is_empty());
    let seen: Vec<u32> = q.read(6, 5, 5, 0).into_iter().copied().collect();
    assert_eq!(seen, vec![7]);
    q.send(8, 6, 1);
    // Ending generation 6 keeps both; ending generation 7 drops generation 5.
    q.clear_stale(6);
    assert_eq!(q.read(7, 6, 6, 0).len(), 1);
    q.clear_stale(7);
    let left: Vec<u32> = q.read(7, 5, 6, 3).into_iter().copied().collect();
    assert_eq!(left, vec![8]);
    assert!(q.read(8, 7, 7, 3).is_empty());
}
