use venix::commands::{CommandQueue, Commands, DespawnSet};
use venix::entity::Entity;
use venix::filter::{AnyOf, Changed, Added, EmptyQueryFilter, Not, Or, With, Without};
use venix::resources::{Res, ResMut};
use venix::query::{chunk_bounds, fetch_read_only, init_fetch};
use venix::validation::FunctionGenerationData;
use venix::world::{sort_descending, World, WorldError};

type TestWorld = World<i32, u64, u32, u8>;

const POS: u64 = 1;
const VEL: u64 = 2;
const TAG_A: u64 = 10;
const TAG_B: u64 = 11;
const POS_CHANGED: u64 = 101;
const POS_ADDED: u64 = 201;

#[test]
fn resource_read_after_write() {
    let mut w: TestWorld = World::new();
    assert!(w.get_resource_opt(7).is_none());
    w.insert_resource(7, 100);
    assert_eq!(*w.get_resource(7), 100);
    *w.get_resource_mut(7) += 5;
    assert_eq!(*w.get_resource(7), 105);
    *w.get_resource_mut_opt(7).unwrap() += 1;
    assert_eq!(*w.get_resource(7), 106);
    assert!(w.get_resource_mut_opt(8).is_none());
    w.insert_resource(7, 1);
    assert_eq!(*w.res(7).get(), 1);
    assert!(w.remove_resource(7));
    assert!(!w.remove_resource(7));
    assert!(w.get_resource_opt(7).is_none());
    assert!(w.res_opt(7).is_none());
}

#[test]
fn resource_params_declare_their_access() {
    let r = Res::<u64>::get_access(9);
    assert_eq!(r.res_reads.as_slice(), &[9]);
    assert!(r.res_writes.as_slice().is_empty());
    let m = ResMut::<u64>::get_access(9);
    assert_eq!(m.res_writes.as_slice(), &[9]);
    assert!(m.res_reads.as_slice().is_empty());
    let mut value = 3u64;
    let mut handle = ResMut::new(&mut value);
    *handle.get_mut() = 4;
    assert_eq!(*handle.get(), 4);
    assert_eq!(value, 4);
}

#[test]
fn events_are_read_in_the_next_frame_only() {
    let mut w: TestWorld = World::new();
    assert!(w.init_event(50).is_ok());
    assert!(matches!(w.init_event(50), Err(WorldError::EventAlreadyInitialized(50))));
    assert!(w.event_buffer(51).is_none());
    w.event_buffer_mut(50).unwrap().send(1);
    w.event_buffer_mut(50).unwrap().send_batch(vec![2, 3]);
    assert!(w.event_buffer(50).unwrap().read().is_empty());
    w.end_of_frame_sync();
    assert_eq!(w.event_buffer(50).unwrap().read(), &[1, 2, 3]);
    w.event_buffer_mut(50).unwrap().send(9);
    w.end_of_frame_sync();
    assert_eq!(w.event_buffer(50).unwrap().read(), &[9]);
    w.end_of_frame_sync();
    assert!(w.event_buffer(50).unwrap().read().is_empty());
}

#[test]
fn end_of_frame_swaps_the_read_slot() {
    let mut w: TestWorld = World::new();
    assert_eq!(w.current_read_idx(), 1);
    w.end_of_frame_sync();
    assert_eq!(w.current_read_idx(), 0);
    w.end_of_frame_sync();
    assert_eq!(w.current_read_idx(), 1);
}

#[test]
fn despawn_frees_registry_positions_largest_first() {
    let mut w: TestWorld = World::new();
    let e0 = w.spawn(&[POS], vec!["Position"], vec![0; 1]);
    let e1 = w.spawn(&[POS], vec!["Position"], vec![0; 1]);
    let e2 = w.spawn(&[POS], vec!["Position"], vec![0; 1]);
    let e3 = w.spawn(&[POS], vec!["Position"], vec![0; 1]);
    w.despawn(e1);
    w.despawn(e3);
    w.despawn(e0);
    assert!(!w.will_despawn(&e2));
    assert!(w.apply_despawns().is_ok());
    assert_eq!(w.free_indices_slice(), &[3, 1, 0]);
    assert_eq!(w.registry_ref().get(1).handle_count, 0);
    assert_eq!(w.registry_ref().get(2).handle_count, 1);
    // Rows [0 1 2 3]: 1 goes, 3 moves up; then 3 goes, 2 moves up; then 0 goes.
    assert_eq!(w.registry_ref().get(2).idx, 0);
    assert_eq!(w.archetypes().at(0).len(), 1);
    assert!(!w.will_despawn(&e2));
}

#[test]
fn despawn_with_live_handles_is_reported() {
    let mut w: TestWorld = World::new();
    let e0 = w.spawn(&[POS], vec!["Position"], vec![0; 1]);
    let e1 = w.spawn(&[POS], vec!["Position"], vec![0; 1]);
    let kept = w.registry_mut().clone_entity(&e1);
    let _also_kept = w.registry_mut().clone_entity(&e1);
    w.despawn(e0);
    w.despawn(e1);
    match w.apply_despawns() {
        Err(WorldError::HandlesAlive { entity, handles, .. }) => {
            assert_eq!(entity, 1);
            assert_eq!(handles, 2);
        }
        _ => panic!("expected the live handles to be reported"),
    }
    assert!(w.free_indices_slice().is_empty());
    assert!(!w.will_despawn(&kept));
    assert_eq!(w.archetypes().at(0).len(), 2);
}

#[test]
fn queued_commands_come_out_in_order() {
    let mut w: TestWorld = World::new();
    let target = w.spawn(&[POS], vec!["Position"], vec![0; 1]);
    let probe = w.registry_mut().clone_entity(&target);
    w.push_command(3);
    w.push_command(1);
    {
        let mut c = w.commands();
        c.push(2);
        c.despawn(target);
        assert!(c.will_despawn(&probe));
        assert_eq!(c.despawn_iter().len(), 1);
    }
    assert_eq!(w.take_queued_commands(), vec![3, 1, 2]);
    assert!(w.take_queued_commands().is_empty());
    assert!(w.will_despawn(&probe));
}

#[test]
fn command_queue_and_despawn_set() {
    let mut q: CommandQueue<u8> = CommandQueue::new();
    assert!(q.is_empty());
    q.push(4);
    q.push(5);
    assert_eq!(q.len(), 2);
    assert_eq!(q.take_all(), vec![4, 5]);
    assert!(q.is_empty());
    let mut w: TestWorld = World::new();
    let mut handles: Vec<Entity> = Vec::new();
    for _ in 0..5 {
        handles.push(w.spawn(&[POS], vec!["Position"], vec![0; 1]));
    }
    let e4 = handles.pop().unwrap();
    let _e3 = handles.pop().unwrap();
    let e2 = handles.pop().unwrap();
    let e2_again = w.registry_mut().clone_entity(&e2);
    let mut d = DespawnSet::new();
    assert!(d.insert(e2));
    assert!(!d.insert(e2_again));
    assert_eq!(d.len(), 1);
    let mut q2: CommandQueue<u8> = CommandQueue::new();
    let mut c = Commands::new(&mut q2, &mut d);
    c.despawn(e4);
    let taken = d.take_all();
    let ids: Vec<u32> = taken.iter().map(|t| t.entity.registry_idx()).collect();
    assert_eq!(ids, vec![2, 4]);
    assert_eq!(d.len(), 0);
}

#[test]
fn sort_descending_orders_and_keeps_entries() {
    let mut v = vec![3, 9, 1, 9, 0, 4];
    sort_descending(&mut v);
    assert_eq!(v, vec![9, 9, 4, 3, 1, 0]);
    let mut e: Vec<u32> = Vec::new();
    sort_descending(&mut e);
    assert!(e.is_empty());
}

fn reader(system_id: u32, last_run: u8) -> FunctionGenerationData {
    let mut d = FunctionGenerationData::new();
    d.system_id = system_id;
    d.last_run_generation = last_run;
    d
}

fn rows_of(q: &venix::query::Query, id: usize) -> Option<Vec<usize>> {
    q.archetype_rows(id).map(|r| r.to_vec())
}

#[test]
fn a_change_is_seen_once_by_every_other_system() {
    let mut w: TestWorld = World::new();
    let changed = Changed { component: POS, marker: POS_CHANGED };
    let access = w.query_access(&[POS], &[], &changed);
    assert_eq!(access.with_filters.as_slice(), &[POS_CHANGED]);
    let id = w.pre_allocate_archetype(&[POS, VEL], vec!["Position", "Velocity"]);
    assert_eq!(id.id(), 0);
    w.spawn(&[POS, VEL], vec!["Position", "Velocity"], vec![5, 1]);
    w.spawn(&[VEL, POS], vec!["Velocity", "Position"], vec![1, 6]);
    let k = w.archetypes().at(0).marker_column_index(POS_CHANGED).unwrap();
    assert_eq!(w.current_generation(), 1);
    // Frame 1: nothing changed yet.
    assert_eq!(rows_of(&w.query(&[POS], &changed, &reader(2, 0)), 0), Some(vec![]));
    // System 1 writes row 1; system 2 runs after it in the same frame and
    // sees the change, system 0 ran before it and does not yet.
    w.mark_changed(id, k, 1, 1);
    assert_eq!(rows_of(&w.query(&[POS], &changed, &reader(2, 0)), 0), Some(vec![1]));
    assert_eq!(rows_of(&w.query(&[POS], &changed, &reader(0, 0)), 0), Some(vec![]));
    w.end_of_frame_sync();
    assert_eq!(w.current_generation(), 2);
    // Frame 2: system 0 sees it now, system 2 does not see it again.
    assert_eq!(rows_of(&w.query(&[POS], &changed, &reader(0, 1)), 0), Some(vec![1]));
    assert_eq!(rows_of(&w.query(&[POS], &changed, &reader(2, 1)), 0), Some(vec![]));
    w.end_of_frame_sync();
    // Frame 3: nobody sees it, and the stale stamp has been reset.
    assert_eq!(rows_of(&w.query(&[POS], &changed, &reader(0, 2)), 0), Some(vec![]));
    assert_eq!(rows_of(&w.query(&[POS], &changed, &reader(2, 2)), 0), Some(vec![]));
    assert_eq!(w.archetypes().at(0).marker_column(k).stamp_of(1), (0, 0));
    let all = w.query(&[POS], &EmptyQueryFilter, &reader(0, 2));
    assert_eq!(rows_of(&all, 0), Some(vec![0, 1]));
}

#[test]
fn a_change_in_frame_two_only_is_reported_in_frame_two_only() {
    // Frames 1..3 with one writer (system 1) changing the row in frame 2
    // and one reader (system 2) running after it in every frame.
    let mut w: TestWorld = World::new();
    let changed = Changed { component: POS, marker: POS_CHANGED };
    w.query_access(&[POS], &[], &changed);
    w.spawn(&[POS], vec!["Position"], vec![10]);
    let k = w.archetypes().at(0).marker_column_index(POS_CHANGED).unwrap();
    let mut last_run: u8 = 0;
    let mut seen: Vec<usize> = Vec::new();
    for frame in 1..4 {
        if frame == 2 {
            w.mark_changed(venix::archetypes::ArchetypeId(0), k, 0, 1);
        }
        let q = w.query(&[POS], &changed, &reader(2, last_run));
        seen.push(rows_of(&q, 0).unwrap().len());
        last_run = w.current_generation();
        w.end_of_frame_sync();
    }
    assert_eq!(seen, vec![0, 1, 0]);
}

#[test]
fn addition_is_seen_in_the_next_frame_only() {
    let mut w: TestWorld = World::new();
    let added = Added { component: POS, marker: POS_ADDED };
    w.query_access(&[], &[], &added);
    let e = w.spawn(&[POS], vec!["Position"], vec![0; 1]);
    assert_eq!(w.registry_ref().get(e.registry_idx() as usize).archetype_id.id(), 0);
    let q = w.query(&[], &added, &reader(0, 0));
    assert_eq!(rows_of(&q, 0), Some(vec![]));
    w.end_of_frame_sync();
    let q = w.query(&[], &added, &reader(0, 0));
    assert_eq!(rows_of(&q, 0), Some(vec![0]));
    w.end_of_frame_sync();
    let q = w.query(&[], &added, &reader(0, 0));
    assert_eq!(rows_of(&q, 0), Some(vec![]));
}

#[test]
fn or_and_not_filters_select_archetypes() {
    let mut w: TestWorld = World::new();
    let a = w.pre_allocate_archetype(&[POS, TAG_A], vec!["Position", "TagA"]);
    let b = w.pre_allocate_archetype(&[POS, TAG_B], vec!["Position", "TagB"]);
    w.spawn(&[TAG_A, POS], vec!["TagA", "Position"], vec![0; 2]);
    w.spawn(&[POS, TAG_A], vec!["Position", "TagA"], vec![0; 2]);
    w.spawn(&[POS, TAG_B], vec!["Position", "TagB"], vec![0; 2]);
    let or = Or(With(TAG_A), With(TAG_B));
    let q = w.query(&[POS], &or, &reader(0, 0));
    let total: usize = q.iter().iter().map(|v| v.len()).sum();
    assert_eq!(total, 3);
    let not = (With(TAG_A), Not(With(TAG_B)));
    let q = w.query(&[POS], &not, &reader(0, 0));
    let views = q.iter();
    assert_eq!(views.len(), 1);
    assert_eq!(views[0].archetype(), a.id());
    assert_eq!(views[0].indices(), &[0, 1]);
    let without = w.query(&[POS], &Without(TAG_A), &reader(0, 0));
    assert_eq!(without.iter().len(), 1);
    let any = w.query(&[], &AnyOf((With(TAG_B), With(99))), &reader(0, 0));
    assert_eq!(any.iter()[0].archetype(), b.id());
    let none = w.query(&[VEL], &EmptyQueryFilter, &reader(0, 0));
    assert!(none.iter().is_empty());
}

#[test]
fn same_kinds_in_another_order_give_the_same_archetype() {
    let mut w: TestWorld = World::new();
    let first = w.pre_allocate_archetype(&[POS, VEL, TAG_A], vec!["Position", "Velocity", "TagA"]);
    let second = w.pre_allocate_archetype(&[TAG_A, POS, VEL], vec!["TagA", "Position", "Velocity"]);
    assert_eq!(first.id(), second.id());
    assert_eq!(w.archetypes().len(), 1);
    let third = w.pre_allocate_archetype(&[POS], vec!["Position"]);
    assert_eq!(third.id(), 1);
}

#[test]
fn spawn_places_entities_in_their_archetype() {
    let mut w: TestWorld = World::new();
    let a = w.spawn(&[POS, VEL], vec!["Position", "Velocity"], vec![0; 2]);
    let b = w.spawn(&[VEL, POS], vec!["Velocity", "Position"], vec![0; 2]);
    let c = w.spawn(&[POS], vec!["Position"], vec![0; 1]);
    assert_eq!((a.registry_idx(), b.registry_idx(), c.registry_idx()), (0, 1, 2));
    assert_eq!(w.archetypes().len(), 2);
    assert_eq!(w.archetypes().at(0).len(), 2);
    assert_eq!(w.archetypes().at(1).len(), 1);
    let cell_b = w.registry_ref().get(1);
    assert_eq!((cell_b.archetype_id.id(), cell_b.idx, cell_b.handle_count), (0, 1, 1));
    let cell_c = w.registry_ref().get(2);
    assert_eq!((cell_c.archetype_id.id(), cell_c.idx, cell_c.handle_count), (1, 0, 1));
    let all = w.query(&[POS], &EmptyQueryFilter, &reader(0, 0));
    assert_eq!(rows_of(&all, 0), Some(vec![0, 1]));
    assert_eq!(rows_of(&all, 1), Some(vec![0]));
}

#[test]
fn despawn_removes_the_row_and_moves_the_last_one() {
    let mut w: TestWorld = World::new();
    let a = w.spawn(&[POS], vec!["Position"], vec![0; 1]);
    let b = w.spawn(&[POS], vec!["Position"], vec![0; 1]);
    let c = w.spawn(&[POS], vec!["Position"], vec![0; 1]);
    assert_eq!(a.registry_idx(), 0);
    w.despawn(b);
    assert!(w.apply_despawns().is_ok());
    assert_eq!(w.archetypes().at(0).len(), 2);
    assert_eq!(w.registry_ref().get(c.registry_idx() as usize).idx, 1);
    assert_eq!(w.registry_ref().get(1).handle_count, 0);
    assert_eq!(w.free_indices_slice(), &[1]);
    let all = w.query(&[POS], &EmptyQueryFilter, &reader(0, 0));
    assert_eq!(rows_of(&all, 0), Some(vec![0, 1]));
}

#[test]
fn despawn_error_names_the_component_kinds() {
    let mut w: TestWorld = World::new();
    let e = w.spawn(&[POS, VEL], vec!["Position", "Velocity"], vec![0; 2]);
    let extra = w.registry_mut().clone_entity(&e);
    assert_eq!(w.registry_ref().get(0).handle_count, 2);
    w.despawn(e);
    match w.apply_despawns() {
        Err(WorldError::HandlesAlive { entity, archetype, handles, kinds }) => {
            assert_eq!(entity, 0);
            assert_eq!(archetype.id(), 0);
            assert_eq!(handles, 1);
            assert_eq!(kinds, vec!["Position", "Velocity"]);
        }
        _ => panic!("expected the live handle to be reported"),
    }
    assert_eq!(w.archetypes().at(0).len(), 1);
    assert_eq!(extra.registry_idx(), 0);
}

#[test]
fn writes_through_res_mut_reach_the_world() {
    let mut w: TestWorld = World::new();
    w.insert_resource(3, 0);
    {
        let mut tracker = w.res_mut(3);
        *tracker.get_mut() = 100;
        assert_eq!(*tracker.get(), 100);
    }
    assert_eq!(*w.get_resource(3), 100);
    assert_eq!(*w.res(3).get(), 100);
}

#[test]
fn rows_split_into_chunks() {
    assert_eq!(chunk_bounds(10, 4), vec![(0, 4), (4, 8), (8, 10)]);
    assert_eq!(chunk_bounds(8, 4), vec![(0, 4), (4, 8)]);
    assert_eq!(chunk_bounds(3, 5), vec![(0, 3)]);
    assert!(chunk_bounds(0, 3).is_empty());
}

#[test]
fn moving_an_entity_carries_its_values() {
    let mut w: TestWorld = World::new();
    let a = w.spawn(&[POS], vec!["Position"], vec![11]);
    let b = w.spawn(&[POS], vec!["Position"], vec![22]);
    // `a` gains a velocity of 5; its position 11 moves with it.
    let target = w.move_entity(&a, &[POS, VEL], vec!["Position", "Velocity"], &[VEL], vec![5]);
    assert_eq!(target.id(), 1);
    assert_eq!(w.archetypes().at(0).len(), 1);
    assert_eq!(w.archetypes().at(1).len(), 1);
    let cell_a = w.registry_ref().get(a.registry_idx() as usize);
    assert_eq!((cell_a.archetype_id.id(), cell_a.idx), (1, 0));
    let cell_b = w.registry_ref().get(b.registry_idx() as usize);
    assert_eq!((cell_b.archetype_id.id(), cell_b.idx), (0, 0));
    assert_eq!(*w.archetypes().at(0).column(POS).unwrap().get(0), 22);
    assert_eq!(w.archetypes().at(0).column(POS).unwrap().len(), 1);
    let moved = w.archetypes().at(1);
    assert_eq!(*moved.column(POS).unwrap().get(0), 11);
    assert_eq!(*moved.column(VEL).unwrap().get(0), 5);
    let moving = w.query(&[VEL], &EmptyQueryFilter, &reader(0, 0));
    let views = moving.iter();
    assert_eq!(views.len(), 1);
    assert_eq!(views[0].archetype(), 1);
    assert_eq!(views[0].indices(), &[0]);
    // Replacing a value in place: the entity stays in its row.
    let same = w.move_entity(&a, &[VEL, POS], vec!["Velocity", "Position"], &[POS], vec![12]);
    assert_eq!(same.id(), 1);
    assert_eq!(*w.archetypes().at(1).column(POS).unwrap().get(0), 12);
    assert_eq!(*w.archetypes().at(1).column(VEL).unwrap().get(0), 5);
    // `a` loses its velocity: the velocity is dropped, the position moves back.
    let back = w.move_entity(&a, &[POS], vec!["Position"], &[], vec![]);
    assert_eq!(back.id(), 0);
    assert_eq!(w.archetypes().at(0).len(), 2);
    assert_eq!(w.archetypes().at(1).len(), 0);
    assert_eq!(w.registry_ref().get(0).idx, 1);
    assert_eq!(w.registry_ref().get(0).handle_count, 1);
    let pos = w.archetypes().at(0).column(POS).unwrap();
    assert_eq!((*pos.get(0), *pos.get(1)), (22, 12));
    assert_eq!(w.archetypes().at(1).column(VEL).unwrap().len(), 0);
}

#[test]
fn repeated_names_are_kept_once() {
    let mut w: TestWorld = World::new();
    w.pre_allocate_archetype(&[POS, VEL], vec!["Position", "Position", "Velocity"]);
    assert_eq!(w.archetypes().at(0).names_vec(), vec!["Position", "Velocity"]);
}

#[test]
fn a_second_despawn_gives_up_its_handle() {
    let mut w: TestWorld = World::new();
    let e = w.spawn(&[POS], vec!["Position"], vec![0; 1]);
    let copy = w.registry_mut().clone_entity(&e);
    assert_eq!(w.registry_ref().get(0).handle_count, 2);
    w.despawn(e);
    assert_eq!(w.registry_ref().get(0).handle_count, 2);
    w.despawn(copy);
    assert_eq!(w.registry_ref().get(0).handle_count, 1);
    assert!(w.apply_despawns().is_ok());
    assert_eq!(w.registry_ref().get(0).handle_count, 0);
    assert_eq!(w.archetypes().at(0).len(), 0);
    assert_eq!(w.free_indices_slice(), &[0]);
}

#[test]
fn spawning_then_despawning_restores_the_rows() {
    let mut w: TestWorld = World::new();
    let _a = w.spawn(&[POS], vec!["Position"], vec![0; 1]);
    let _b = w.spawn(&[POS], vec!["Position"], vec![0; 1]);
    let before = rows_of(&w.query(&[POS], &EmptyQueryFilter, &reader(0, 0)), 0);
    let c = w.spawn(&[POS], vec!["Position"], vec![0; 1]);
    w.despawn(c);
    assert!(w.apply_despawns().is_ok());
    assert_eq!(rows_of(&w.query(&[POS], &EmptyQueryFilter, &reader(0, 0)), 0), before);
    assert_eq!(w.registry_ref().get(0).idx, 0);
    assert_eq!(w.registry_ref().get(1).idx, 1);
}

#[test]
fn spawned_values_are_read_back_by_queries() {
    let mut w: TestWorld = World::new();
    w.spawn(&[POS, VEL], vec!["Position", "Velocity"], vec![5, 1]);
    w.spawn(&[VEL, POS], vec!["Velocity", "Position"], vec![2, 6]);
    w.spawn(&[POS], vec!["Position"], vec![9]);
    let r = reader(0, 0);
    let q = w.query(&[POS, VEL], &EmptyQueryFilter, &r);
    let views = q.iter();
    assert_eq!(views.len(), 1);
    let ctx = w.read_context(&r);
    let arch = w.archetypes().at(views[0].archetype() as usize);
    let pos = init_fetch(arch, POS, POS_CHANGED, &ctx);
    let vel = init_fetch(arch, VEL, 0, &ctx);
    let read = |f: &venix::query::ComponentFetch| -> Vec<i32> {
        views[0].indices().iter().map(|&row| *fetch_read_only(arch, f, row).unwrap()).collect()
    };
    assert_eq!(read(&pos), vec![5, 6]);
    assert_eq!(read(&vel), vec![1, 2]);
    let only = w.archetypes().at(1);
    assert_eq!(*only.column(POS).unwrap().get(0), 9);
    assert!(only.column(VEL).is_none());
}
