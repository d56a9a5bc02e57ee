use venix::app::{register_plugin_names, App, ConfigError, ConfigurationContext};
use venix::ordering::{order_schedules, ScheduleError};
use venix::schedule::{
    runner_steps, ApplyCommands, CleanupHandles, DefaultSchedulesPlugin, First, IntoScheduleId,
    Last, PostUpdate, PreUpdate, RunStep, RunnerKind, Schedule, ScheduleId, SchedulePlace,
    Startup, Update,
};

fn plain(id: u64, name: &'static str, place: SchedulePlace) -> Schedule<u32> {
    Schedule { label: ScheduleId::new(id, name), place, runner: RunnerKind::Plain, systems: Vec::new() }
}

fn default_set() -> Vec<Schedule<u32>> {
    let mut schedules: Vec<Schedule<u32>> = vec![Schedule::new(Startup)];
    DefaultSchedulesPlugin.build(&mut schedules);
    schedules
}

fn ids(schedules: &[Schedule<u32>]) -> Vec<u64> {
    schedules.iter().map(|s| s.label.id).collect()
}

#[test]
fn label_ids_are_distinct_and_named() {
    let all = [
        Startup::id(),
        First::id(),
        PreUpdate::id(),
        Update::id(),
        PostUpdate::id(),
        CleanupHandles::id(),
        ApplyCommands::id(),
        Last::id(),
    ];
    for (i, a) in all.iter().enumerate() {
        for (j, b) in all.iter().enumerate() {
            assert_eq!(i == j, a == b);
        }
    }
    assert_eq!(Startup::id().name, "Startup");
    assert_eq!(Last::id().name, "Last");
}

#[test]
fn schedule_id_equality_ignores_the_name() {
    assert!(ScheduleId::new(4, "Update") == ScheduleId::new(4, "another name"));
    assert!(ScheduleId::new(4, "Update") != ScheduleId::new(5, "Update"));
}

#[test]
fn default_plugin_adds_seven_empty_schedules() {
    let schedules = default_set();
    assert_eq!(ids(&schedules), vec![1, 2, 3, 4, 5, 6, 7, 8]);
    assert!(schedules.iter().all(|s| s.systems.is_empty()));
    assert_eq!(schedules[6].runner, RunnerKind::ApplyCommands);
    assert_eq!(schedules[5].runner, RunnerKind::CleanupHandles);
    assert_eq!(schedules[0].runner, RunnerKind::Startup);
}

fn position(order: &[u64], id: u64) -> usize {
    order.iter().position(|&i| i == id).unwrap()
}

#[test]
fn default_schedules_are_ordered_as_documented() {
    let ordered = order_schedules(default_set(), Startup::id()).unwrap();
    assert_eq!(ids(&ordered), vec![1, 2, 3, 4, 5, 6, 7, 8]);
    let mut reversed = default_set();
    reversed.reverse();
    let order = ids(&order_schedules(reversed, Startup::id()).unwrap());
    assert_eq!(order.len(), 8);
    assert_eq!(order[0], 1);
    for (before, after) in [(1, 2), (2, 3), (3, 4), (4, 5), (5, 6), (6, 7), (7, 8)] {
        assert!(position(&order, before) < position(&order, after));
    }
}

#[test]
fn before_constraint_places_schedule_ahead() {
    let mut schedules = default_set();
    schedules.push(plain(20, "Early", SchedulePlace::Before(Update::id())));
    let ordered = order_schedules(schedules, Startup::id()).unwrap();
    let order = ids(&ordered);
    let early = order.iter().position(|&i| i == 20).unwrap();
    let update = order.iter().position(|&i| i == 4).unwrap();
    let pre = order.iter().position(|&i| i == 3).unwrap();
    assert!(early < update);
    assert!(pre < update);
    assert_eq!(order[0], 1);
}

#[test]
fn duplicate_schedule_is_refused() {
    let mut schedules = default_set();
    schedules.push(plain(4, "Update", SchedulePlace::After(First::id())));
    match order_schedules(schedules, Startup::id()) {
        Err(ScheduleError::DuplicateSchedule(l)) => assert_eq!(l.id, 4),
        other => panic!("unexpected {:?}", other.map(|v| v.len())),
    }
}

#[test]
fn missing_startup_is_refused() {
    let schedules = vec![plain(2, "First", SchedulePlace::After(Startup::id()))];
    assert!(matches!(order_schedules(schedules, Startup::id()), Err(ScheduleError::MissingStartup)));
}

#[test]
fn schedule_before_startup_is_refused() {
    let mut schedules = default_set();
    schedules.push(plain(30, "TooEarly", SchedulePlace::Before(Startup::id())));
    match order_schedules(schedules, Startup::id()) {
        Err(ScheduleError::BeforeStartup(l)) => assert_eq!(l.id, 30),
        other => panic!("unexpected {:?}", other.map(|v| v.len())),
    }
}

#[test]
fn missing_target_is_refused() {
    let mut schedules = default_set();
    schedules.push(plain(31, "Orphan", SchedulePlace::After(ScheduleId::new(99, "Nowhere"))));
    match order_schedules(schedules, Startup::id()) {
        Err(ScheduleError::MissingTarget(l)) => assert_eq!(l.id, 31),
        other => panic!("unexpected {:?}", other.map(|v| v.len())),
    }
}

#[test]
fn cycle_is_refused() {
    let mut schedules = vec![Schedule::new(Startup)];
    schedules.push(plain(40, "A", SchedulePlace::After(ScheduleId::new(41, "B"))));
    schedules.push(plain(41, "B", SchedulePlace::After(ScheduleId::new(40, "A"))));
    match order_schedules(schedules, Startup::id()) {
        Err(ScheduleError::CircularDependency(t)) => {
            let mut left: Vec<u64> = t.iter().map(|s| s.id).collect();
            left.sort();
            assert_eq!(left, vec![40, 41]);
        }
        other => panic!("unexpected {:?}", other.map(|v| v.len())),
    }
}

#[test]
fn runner_plans_follow_the_schedule_kinds() {
    assert_eq!(runner_steps(RunnerKind::Plain, 2), vec![RunStep::RunSystem(0), RunStep::RunSystem(1)]);
    assert_eq!(
        runner_steps(RunnerKind::Startup, 2),
        vec![RunStep::RunSystem(0), RunStep::ApplyAllCommands, RunStep::RunSystem(1), RunStep::ApplyAllCommands]
    );
    assert_eq!(
        runner_steps(RunnerKind::CleanupHandles, 1),
        vec![RunStep::ApplyQueueCommands, RunStep::RunSystem(0), RunStep::ApplyQueueCommands]
    );
    assert_eq!(
        runner_steps(RunnerKind::ApplyCommands, 1),
        vec![RunStep::RunSystem(0), RunStep::ApplyQueueCommands, RunStep::ApplyDespawns]
    );
    let s: Schedule<u32> = Schedule { label: ApplyCommands::id(), place: SchedulePlace::After(CleanupHandles::id()), runner: RunnerKind::ApplyCommands, systems: vec![7, 8] };
    assert_eq!(s.run().len(), 4);
}

#[test]
fn configuration_checks_report_missing_steps() {
    let mut c = ConfigurationContext::new();
    assert!(c.not_ready().is_ok());
    assert!(matches!(c.plugins_processed(), Err(ConfigError::PluginsNotProcessed)));
    assert!(matches!(c.built(), Err(ConfigError::PluginsNotProcessed)));
    c.plugins_processed = true;
    c.schedules_added = true;
    assert!(matches!(c.built(), Err(ConfigError::SystemsNotAdded)));
    c.systems_added = true;
    assert!(matches!(c.built(), Err(ConfigError::NotBuilt)));
    c.built = true;
    assert!(c.built().is_ok());
    assert!(matches!(c.ran_startup(), Err(ConfigError::StartupNotRun)));
    assert!(matches!(c.not_ready(), Err(ConfigError::AlreadyBuilt)));
}

#[test]
fn app_life_cycle() {
    let mut app: App<u32> = App::new();
    assert!(app.add_schedule(First).is_ok());
    assert!(app.add_schedule(PreUpdate).is_ok());
    assert!(app.add_schedule(Update).is_ok());
    assert!(app.add_systems(Update::id(), vec![10, 11]).is_ok());
    assert!(app.add_systems(Startup::id(), vec![1]).is_ok());
    assert!(matches!(app.update(), Err(_)));
    assert!(app.finish_plugins().is_ok());
    assert!(app.build().is_ok());
    assert!(matches!(app.add_schedule(Last), Err(ConfigError::AlreadyBuilt)));
    assert!(matches!(app.build(), Err(ConfigError::AlreadyBuilt)));
    assert!(matches!(app.update(), Err(ConfigError::StartupNotRun)));
    let startup = app.run_startup().unwrap();
    assert_eq!(startup.label.id, 1);
    assert_eq!(startup.systems, vec![1]);
    assert!(matches!(app.run_startup(), Err(ConfigError::StartupAlreadyRan)));
    assert!(app.update().is_ok());
    let rest: Vec<u64> = app.schedule_list().iter().map(|s| s.label.id).collect();
    assert_eq!(rest, vec![2, 3, 4]);
    assert_eq!(app.schedule_list()[2].systems, vec![10, 11]);
}

#[test]
fn systems_for_an_unknown_schedule_fail_the_build() {
    let mut app: App<u32> = App::new();
    assert!(app.add_systems(Update::id(), vec![3]).is_ok());
    assert!(app.finish_plugins().is_ok());
    assert!(matches!(app.build(), Err(ConfigError::MissingSchedule(_))));
}

#[test]
fn every_configuration_error_has_its_input() {
    let mut c = ConfigurationContext::new();
    c.plugins_processed = true;
    assert!(matches!(c.built(), Err(ConfigError::SchedulesNotAdded)));
    assert!(matches!(c.schedules_added(), Err(ConfigError::SchedulesNotAdded)));
    assert!(matches!(c.systems_added(), Err(ConfigError::SystemsNotAdded)));

    let mut seen: Vec<&'static str> = vec!["Physics"];
    assert!(register_plugin_names(&mut seen, &vec!["Audio", "Input"]).is_ok());
    assert_eq!(seen, vec!["Physics", "Audio", "Input"]);
    match register_plugin_names(&mut seen, &vec!["Net", "Audio"]) {
        Err(ConfigError::DuplicatePlugin(name)) => assert_eq!(name, "Audio"),
        _ => panic!("expected a duplicate plugin"),
    }
    let mut fresh: Vec<&'static str> = Vec::new();
    assert!(matches!(register_plugin_names(&mut fresh, &vec!["A", "A"]), Err(ConfigError::DuplicatePlugin("A"))));

    let mut app: App<u32> = App::new();
    assert!(app.add_schedule(First).is_ok());
    assert!(app.add_schedule(First).is_ok());
    assert!(app.finish_plugins().is_ok());
    match app.build() {
        Err(ConfigError::Schedules(ScheduleError::DuplicateSchedule(l))) => assert_eq!(l.id, 2),
        _ => panic!("expected the duplicate schedule to be refused"),
    }
}

#[test]
fn reversed_defaults_still_come_out_in_documented_order() {
    let mut reversed = default_set();
    reversed.reverse();
    let order = ids(&order_schedules(reversed, Startup::id()).unwrap());
    assert_eq!(order, vec![1, 2, 3, 4, 5, 6, 7, 8]);
}

#[test]
fn added_schedules_keep_their_own_place_and_runner() {
    let mut app: App<u32> = App::new();
    assert_eq!(app.schedule_list()[0].runner, RunnerKind::Startup);
    assert!(app.add_schedule(Update).is_ok());
    assert!(app.add_schedule(First).is_ok());
    assert!(app.add_schedule(PreUpdate).is_ok());
    assert!(matches!(app.schedule_list()[1].place, SchedulePlace::After(l) if l.id == PreUpdate::id().id));
    assert!(matches!(app.schedule_list()[2].place, SchedulePlace::After(l) if l.id == Startup::id().id));
    assert!(app.finish_plugins().is_ok());
    assert!(app.build().is_ok());
    assert_eq!(ids(app.schedule_list()), vec![1, 2, 3, 4]);
}

#[test]
fn default_schedules_on_an_app_build_in_documented_order() {
    let mut app: App<u32> = App::new();
    assert!(app.add_default_schedules().is_ok());
    assert!(app.add_systems(PostUpdate::id(), vec![5]).is_ok());
    assert!(app.add_systems(CleanupHandles::id(), vec![6, 7]).is_ok());
    assert!(app.finish_plugins().is_ok());
    assert!(app.build().is_ok());
    assert_eq!(ids(app.schedule_list()), vec![1, 2, 3, 4, 5, 6, 7, 8]);
    assert_eq!(app.schedule_list()[4].systems, vec![5]);
    assert_eq!(app.schedule_list()[5].runner, RunnerKind::CleanupHandles);
    assert!(matches!(app.add_default_schedules(), Err(ConfigError::AlreadyBuilt)));
}

#[test]
fn systems_are_numbered_in_execution_order() {
    let mut app: App<u32> = App::new();
    assert!(app.add_schedule(Update).is_ok());
    assert!(app.add_schedule(First).is_ok());
    assert!(app.add_schedule(PreUpdate).is_ok());
    assert!(app.add_systems(Update::id(), vec![40, 41]).is_ok());
    assert!(app.add_systems(First::id(), vec![30]).is_ok());
    assert!(app.add_systems(Startup::id(), vec![10, 11]).is_ok());
    assert!(app.finish_plugins().is_ok());
    assert!(app.build().is_ok());
    assert_eq!(app.system_id(0, 0).get_id(), 0);
    assert_eq!(app.system_id(0, 1).get_id(), 1);
    assert_eq!(app.system_id(1, 0).get_id(), 2);
    assert_eq!(ids(app.schedule_list()), vec![1, 2, 3, 4]);
    assert_eq!(app.system_id(3, 0).get_id(), 3);
    assert_eq!(app.system_id(3, 1).get_id(), 4);
    let startup = app.run_startup().unwrap();
    assert_eq!(startup.systems, vec![10, 11]);
    // The start-up systems keep their numbers; the rest keep theirs.
    assert_eq!(app.system_id(0, 0).get_id(), 2);
    assert_eq!(app.system_id(2, 1).get_id(), 4);
}

#[test]
fn plugins_are_refused_twice_and_after_build() {
    let mut app: App<u32> = App::new();
    assert!(app.add_plugins(vec!["Physics", "Audio"]).is_ok());
    assert!(app.add_plugins(vec!["Physics"]).is_ok());
    match app.finish_plugins() {
        Err(ConfigError::DuplicatePlugin(name)) => assert_eq!(name, "Physics"),
        _ => panic!("expected the second Physics to be refused"),
    }
    let mut app: App<u32> = App::new();
    assert!(app.add_plugins(vec!["Physics", "Audio"]).is_ok());
    assert!(app.finish_plugins().is_ok());
    assert!(app.build().is_ok());
    assert!(matches!(app.add_plugins(vec!["Late"]), Err(ConfigError::AlreadyBuilt)));
    assert!(matches!(app.add_systems(Startup::id(), vec![1]), Err(ConfigError::AlreadyBuilt)));
}

#[test]
fn events_are_initialised_once_and_only_before_build() {
    let mut world: venix::world::World<i32, u64, u32, u8> = venix::world::World::new();
    let mut app: App<u32> = App::new();
    assert!(app.init_event(&mut world, 60).is_ok());
    assert!(matches!(app.init_event(&mut world, 60), Err(ConfigError::EventAlreadyInitialized(60))));
    assert!(world.event_buffer(60).is_some());
    assert!(app.finish_plugins().is_ok());
    assert!(app.build().is_ok());
    assert!(matches!(app.init_event(&mut world, 61), Err(ConfigError::AlreadyBuilt)));
    assert!(world.event_buffer(61).is_none());
}

#[test]
fn systems_receive_their_ids_in_their_generation_data() {
    let mut app: App<u32> = App::new();
    assert!(app.add_schedule(First).is_ok());
    assert!(app.add_systems(First::id(), vec![30, 31]).is_ok());
    assert!(app.add_systems(Startup::id(), vec![10]).is_ok());
    assert!(app.finish_plugins().is_ok());
    assert!(app.build().is_ok());
    let data = app.generation_data(1, 1);
    assert_eq!(venix::validation::SystemId::extract(&data).get_id(), 2);
    assert_eq!(data.last_run_generation, 0);
}

#[test]
fn build_names_the_schedule_error() {
    let mut app: App<u32> = App::new();
    assert!(app.add_schedule(Update).is_ok());
    assert!(app.finish_plugins().is_ok());
    match app.build() {
        Err(ConfigError::Schedules(ScheduleError::MissingTarget(l))) => assert_eq!(l.id, Update::id().id),
        _ => panic!("expected the missing placement target to be named"),
    }
}

#[test]
fn plugins_are_built_batch_by_batch() {
    let mut app: App<u32> = App::new();
    assert!(app.add_plugins(vec!["Physics", "Audio"]).is_ok());
    let first = app.next_plugin_batch().unwrap();
    assert_eq!(first, vec!["Physics", "Audio"]);
    // Building "Physics" adds a plugin of its own: it forms the next batch.
    assert!(app.add_plugins(vec!["Collisions"]).is_ok());
    assert_eq!(app.next_plugin_batch().unwrap(), vec!["Collisions"]);
    // A name handed out before is refused in a later batch.
    assert!(app.add_plugins(vec!["Audio"]).is_ok());
    match app.next_plugin_batch() {
        Err(ConfigError::DuplicatePlugin(name)) => assert_eq!(name, "Audio"),
        _ => panic!("expected the repeated plugin to be refused"),
    }
    let mut app: App<u32> = App::new();
    assert!(app.add_plugins(vec!["DefaultSchedulesPlugin"]).is_ok());
    for name in app.next_plugin_batch().unwrap() {
        assert_eq!(name, "DefaultSchedulesPlugin");
        assert!(app.add_default_schedules().is_ok());
    }
    assert!(app.next_plugin_batch().unwrap().is_empty());
    assert!(app.build().is_ok());
    assert_eq!(ids(app.schedule_list()), vec![1, 2, 3, 4, 5, 6, 7, 8]);
    assert!(matches!(app.next_plugin_batch(), Err(ConfigError::AlreadyBuilt)));
}
