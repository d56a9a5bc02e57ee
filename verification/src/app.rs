//! The application's configuration life cycle: registering schedules and
//! systems, building once, running the start-up schedule once, then frames.
//!
//! A configuration mistake (changing the application once it is built,
//! building twice, starting before the build or twice, a frame before
//! start-up, a plugin or event registered twice, systems for an unknown
//! schedule, schedules that cannot be arranged) is fatal: the step is
//! refused with the `ConfigError` that names it, nothing changes, and the
//! program that drives the application stops there. Each function states
//! exactly on which inputs it refuses and with which error.
use crate::ordering::{order_schedules, ScheduleError};
use crate::schedule::{IntoScheduleId, Schedule, ScheduleId, ScheduleLabel, Startup};
use vstd::prelude::*;
use vstd::string::StringSliceAdditionalSpecFns;

verus! {

/// Why a configuration step is refused.
#[derive(Debug)]
pub enum ConfigError {
    PluginsNotProcessed,
    SchedulesNotAdded,
    SystemsNotAdded,
    NotBuilt,
    StartupNotRun,
    /// The application was already built or started.
    AlreadyBuilt,
    StartupAlreadyRan,
    /// A plugin with this name was registered before.
    DuplicatePlugin(&'static str),
    /// The event type was initialised before.
    EventAlreadyInitialized(u64),
    /// Systems were added to a schedule that was never registered.
    MissingSchedule(ScheduleId),
    /// The schedules cannot be arranged.
    Schedules(ScheduleError),
}

/// Which configuration steps have happened.
pub struct ConfigurationContext {
    pub plugins_processed: bool,
    pub schedules_added: bool,
    pub systems_added: bool,
    pub built: bool,
    pub ran_startup: bool,
}

impl ConfigurationContext {
    /// Nothing has happened yet.
    pub fn new() -> (r: ConfigurationContext)
        ensures
            !r.plugins_processed && !r.schedules_added && !r.systems_added && !r.built
                && !r.ran_startup,
    {
        ConfigurationContext {
            plugins_processed: false,
            schedules_added: false,
            systems_added: false,
            built: false,
            ran_startup: false,
        }
    }

    pub fn plugins_processed(&self) -> (r: Result<(), ConfigError>)
        ensures
            r is Ok <==> self.plugins_processed,
            r matches Err(e) ==> e is PluginsNotProcessed,
    {
        if !self.plugins_processed {
            return Err(ConfigError::PluginsNotProcessed);
        }
        Ok(())
    }

    pub fn schedules_added(&self) -> (r: Result<(), ConfigError>)
        ensures
            r is Ok <==> self.schedules_added,
            r matches Err(e) ==> e is SchedulesNotAdded,
    {
        if !self.schedules_added {
            return Err(ConfigError::SchedulesNotAdded);
        }
        Ok(())
    }

    pub fn systems_added(&self) -> (r: Result<(), ConfigError>)
        ensures
            r is Ok <==> self.systems_added,
            r matches Err(e) ==> e is SystemsNotAdded,
    {
        if !self.systems_added {
            return Err(ConfigError::SystemsNotAdded);
        }
        Ok(())
    }

    /// Every build step happened, checked in the order plugins, schedules,
    /// systems, build.
    pub fn built(&self) -> (r: Result<(), ConfigError>)
        ensures
            r is Ok <==> self.plugins_processed && self.schedules_added && self.systems_added
                && self.built,
            r matches Err(e) ==> if !self.plugins_processed {
                e is PluginsNotProcessed
            } else if !self.schedules_added {
                e is SchedulesNotAdded
            } else if !self.systems_added {
                e is SystemsNotAdded
            } else {
                e is NotBuilt
            },
    {
        self.plugins_processed()?;
        self.schedules_added()?;
        self.systems_added()?;
        if !self.built {
            return Err(ConfigError::NotBuilt);
        }
        Ok(())
    }

    pub fn ran_startup(&self) -> (r: Result<(), ConfigError>)
        ensures
            r is Ok <==> self.ran_startup,
            r matches Err(e) ==> e is StartupNotRun,
    {
        if !self.ran_startup {
            return Err(ConfigError::StartupNotRun);
        }
        Ok(())
    }

    /// The application is still being configured.
    pub fn not_ready(&self) -> (r: Result<(), ConfigError>)
        ensures
            r is Ok <==> !self.built && !self.ran_startup,
            r matches Err(e) ==> e is AlreadyBuilt,
    {
        if self.built || self.ran_startup {
            return Err(ConfigError::AlreadyBuilt);
        }
        Ok(())
    }
}

/// The two names are the same text.
pub open spec fn same_name(a: &'static str, b: &'static str) -> bool {
    a.spec_bytes() == b.spec_bytes()
}

pub(crate) fn names_equal(a: &'static str, b: &'static str) -> (r: bool)
    ensures
        r == same_name(a, b),
{
    let x = a.as_bytes();
    let y = b.as_bytes();
    if x.len() != y.len() {
        return false;
    }
    let mut i: usize = 0;
    while i < x.len()
        invariant
            i <= x@.len(),
            x@.len() == y@.len(),
            x@ == a.spec_bytes(),
            y@ == b.spec_bytes(),
            forall|k: int| 0 <= k < i ==> x@[k] == y@[k],
        decreases x@.len() - i,
    {
        if x[i] != y[i] {
            return false;
        }
        i += 1;
    }
    assert(x@ =~= y@);
    true
}

/// Some name in `seen` is the same text as `name`.
pub open spec fn name_seen(seen: Seq<&'static str>, name: &'static str) -> bool {
    exists|i: int| 0 <= i < seen.len() && same_name(#[trigger] seen[i], name)
}

/// No name of `names` repeats one in `seen` or one earlier in `names`.
pub open spec fn names_fresh(seen: Seq<&'static str>, names: Seq<&'static str>) -> bool {
    forall|k: int| 0 <= k < names.len() ==> !name_seen(seen + names.subrange(0, k), #[trigger] names[k])
}

/// Records the names of a batch of plugins, refusing the first name that
/// was recorded before (in this batch or an earlier one).
pub fn register_plugin_names(seen: &mut Vec<&'static str>, names: &Vec<&'static str>) -> (r: Result<
    (),
    ConfigError,
>)
    ensures
        r is Ok ==> final(seen)@ == old(seen)@ + names@,
        r is Ok <==> forall|k: int|
            0 <= k < names@.len() ==> !name_seen(old(seen)@ + names@.subrange(0, k), #[trigger] names@[k]),
        r matches Err(ConfigError::DuplicatePlugin(n)) ==> exists|k: int|
            0 <= k < names@.len() && n == names@[k] && name_seen(
                old(seen)@ + names@.subrange(0, k),
                names@[k],
            ) && forall|k2: int|
                0 <= k2 < k ==> !name_seen(old(seen)@ + names@.subrange(0, k2), #[trigger] names@[k2]),
        r matches Err(e) ==> e is DuplicatePlugin,
{
    let ghost start = seen@;
    let mut k: usize = 0;
    while k < names.len()
        invariant
            k <= names@.len(),
            start == old(seen)@,
            seen@ == start + names@.subrange(0, k as int),
            forall|k2: int|
                0 <= k2 < k ==> !name_seen(start + names@.subrange(0, k2), #[trigger] names@[k2]),
        decreases names@.len() - k,
    {
        let name = names[k];
        let mut j: usize = 0;
        while j < seen.len()
            invariant
                j <= seen@.len(),
                k < names@.len(),
                start == old(seen)@,
                seen@ == start + names@.subrange(0, k as int),
                name == names@[k as int],
                forall|k2: int|
                    0 <= k2 < k ==> !name_seen(start + names@.subrange(0, k2), #[trigger] names@[k2]),
                forall|q: int| 0 <= q < j ==> !same_name(seen@[q], name),
            decreases seen@.len() - j,
        {
            if names_equal(seen[j], name) {
                assert(same_name(seen@[j as int], name));
                assert(name_seen(seen@, name));
                assert(name_seen(start + names@.subrange(0, k as int), names@[k as int]));
                assert(!(forall|k3: int|
                    0 <= k3 < names@.len() ==> !name_seen(start + names@.subrange(0, k3), #[trigger] names@[k3])));
                return Err(ConfigError::DuplicatePlugin(name));
            }
            j += 1;
        }
        seen.push(name);
        assert(seen@ =~= start + names@.subrange(0, k as int + 1));
        k += 1;
    }
    assert(names@.subrange(0, names@.len() as int) =~= names@);
    Ok(())
}

/// Systems waiting to be added to the schedule with the given label.
pub struct SystemsBlock<S> {
    pub schedule_id: ScheduleId,
    pub systems: Vec<S>,
}

/// The systems of all blocks aimed at label number `id`, in block order.
pub open spec fn routed<S>(blocks: Seq<SystemsBlock<S>>, id: u64) -> Seq<S>
    decreases blocks.len(),
{
    if blocks.len() == 0 {
        Seq::empty()
    } else {
        routed(blocks.drop_last(), id) + if blocks.last().schedule_id.id == id {
            blocks.last().systems@
        } else {
            Seq::empty()
        }
    }
}

/// Some schedule carries label number `id`.
pub open spec fn schedule_has<S>(schedules: Seq<Schedule<S>>, id: u64) -> bool {
    exists|i: int| 0 <= i < schedules.len() && (#[trigger] schedules[i]).label.id == id
}

/// The number of systems in the schedules before position `i`.
pub open spec fn systems_before<S>(schedules: Seq<Schedule<S>>, i: int) -> int
    decreases i,
{
    if i <= 0 {
        0
    } else {
        systems_before(schedules, i - 1) + schedules[i - 1].systems@.len()
    }
}

/// The registered schedules can be arranged: labels are unique, the root
/// is there, every placement names a registered label other than before
/// the root, and some order meets every constraint.
pub open spec fn arrangeable<S>(s: Seq<Schedule<S>>) -> bool {
    &&& crate::ordering::ids_unique(s)
    &&& crate::ordering::has_id(s, crate::schedule::startup_id().id)
    &&& crate::ordering::no_placement_errors(s, crate::schedule::startup_id().id)
    &&& exists|o: Seq<u64>| #[trigger] crate::ordering::is_valid_order(s, crate::schedule::startup_id().id, o)
}

/// Every block of systems is aimed at a registered label.
pub open spec fn all_routed<S>(s: Seq<Schedule<S>>, blocks: Seq<SystemsBlock<S>>) -> bool {
    forall|b: int| 0 <= b < blocks.len() ==> crate::ordering::has_id(s, #[trigger] blocks[b].schedule_id.id)
}

/// `arranged` lists the schedules of `s` in a valid order, each with the
/// systems of the blocks aimed at its label appended.
pub open spec fn built_from<S>(s: Seq<Schedule<S>>, blocks: Seq<SystemsBlock<S>>, arranged: Seq<Schedule<S>>) -> bool {
    &&& crate::ordering::is_valid_order(s, crate::schedule::startup_id().id, crate::ordering::label_ids(arranged))
    &&& forall|k: int|
        0 <= k < arranged.len() ==> exists|j: int|
            0 <= j < s.len() && s[j].label == (#[trigger] arranged[k]).label && s[j].place == arranged[k].place
                && s[j].runner == arranged[k].runner && arranged[k].systems@ == s[j].systems@ + routed(
                blocks,
                arranged[k].label.id,
            )
}

/// An application under configuration: its schedules, the systems waiting
/// to be placed, and its progress.
pub struct App<S> {
    pub(crate) schedules: Vec<Schedule<S>>,
    pub(crate) total_systems_blocks: Vec<SystemsBlock<S>>,
    pub(crate) configuration: ConfigurationContext,
    pub(crate) plugin_names: Vec<&'static str>,
    pub(crate) built_plugins: Vec<&'static str>,
    pub(crate) systems_run_at_startup: usize,
    pub(crate) system_ids: Vec<Vec<u32>>,
}

/// The id of the system at position `i` of schedule `k` when `removed`
/// systems were handed out before the first schedule: systems are numbered
/// from 0 across all schedules in execution order, as a `u32`.
pub open spec fn numbered_id<S>(schedules: Seq<Schedule<S>>, removed: nat, k: int, i: int) -> u32 {
    ((removed + systems_before(schedules, k) + i) % 0x1_0000_0000) as u32
}

/// `ids` holds, for every schedule, the id of each of its systems.
pub open spec fn numbered<S>(ids: Seq<Seq<u32>>, schedules: Seq<Schedule<S>>, removed: nat) -> bool {
    &&& ids.len() == schedules.len()
    &&& forall|k: int|
        0 <= k < schedules.len() ==> {
            &&& (#[trigger] ids[k]).len() == schedules[k].systems@.len()
            &&& forall|i: int| 0 <= i < ids[k].len() ==> #[trigger] ids[k][i] == numbered_id(schedules, removed, k, i)
        }
}

impl<S> App<S> {
    pub closed spec fn schedules(&self) -> Seq<Schedule<S>> {
        self.schedules@
    }

    pub closed spec fn blocks(&self) -> Seq<SystemsBlock<S>> {
        self.total_systems_blocks@
    }

    /// The names of the plugins added so far, in order.
    pub closed spec fn plugins(&self) -> Seq<&'static str> {
        self.plugin_names@
    }

    /// The names of the plugins handed out for building so far, in order.
    pub closed spec fn built_plugins(&self) -> Seq<&'static str> {
        self.built_plugins@
    }

    /// The ids given to the systems of each schedule.
    pub closed spec fn ids(&self) -> Seq<Seq<u32>> {
        Seq::new(self.system_ids@.len(), |k: int| self.system_ids@[k]@)
    }

    /// The number of systems of the schedules handed out already (the
    /// start-up schedule, once it has run).
    pub closed spec fn removed_systems(&self) -> nat {
        self.systems_run_at_startup as nat
    }

    pub closed spec fn config(&self) -> (bool, bool, bool, bool, bool) {
        (
            self.configuration.plugins_processed,
            self.configuration.schedules_added,
            self.configuration.systems_added,
            self.configuration.built,
            self.configuration.ran_startup,
        )
    }

    /// A fresh application with only the start-up schedule.
    pub fn new() -> (r: App<S>)
        ensures
            r.schedules().len() == 1,
            r.schedules()[0].label == crate::schedule::startup_id(),
            r.schedules()[0].place == crate::schedule::default_place(crate::schedule::startup_id()),
            r.schedules()[0].runner == crate::schedule::RunnerKind::Startup,
            r.schedules()[0].systems@.len() == 0,
            r.blocks().len() == 0,
            r.plugins().len() == 0,
            r.removed_systems() == 0,
            r.config() == (false, false, false, false, false),
    {
        let mut schedules: Vec<Schedule<S>> = Vec::new();
        schedules.push(Schedule::new(Startup));
        App {
            schedules,
            total_systems_blocks: Vec::new(),
            configuration: ConfigurationContext::new(),
            plugin_names: Vec::new(),
            built_plugins: Vec::new(),
            systems_run_at_startup: 0,
            system_ids: Vec::new(),
        }
    }

    /// Registers a schedule, while the application is still being
    /// configured.
    pub fn add_schedule<T: ScheduleLabel>(&mut self, schedule: T) -> (r: Result<(), ConfigError>)
        ensures
            r is Ok <==> !old(self).config().3 && !old(self).config().4,
            r is Ok ==> final(self).schedules().len() == old(self).schedules().len() + 1 && final(self).schedules().drop_last() == old(self).schedules() && final(self).schedules().last().label
                == schedule.spec_id() && final(self).schedules().last().systems@.len() == 0
                && final(self).schedules().last().place == schedule.spec_place()
                && final(self).schedules().last().runner == schedule.spec_runner(),
            r is Err ==> final(self).schedules() == old(self).schedules(),
            final(self).blocks() == old(self).blocks(),
            final(self).config() == old(self).config(),
    {
        self.configuration.not_ready()?;
        self.schedules.push(Schedule::new(schedule));
        assert(self.schedules@.drop_last() =~= old(self).schedules@);
        Ok(())
    }

    /// Queues systems for the schedule labelled `schedule`, while the
    /// application is still being configured.
    pub fn add_systems(&mut self, schedule: ScheduleId, systems: Vec<S>) -> (r: Result<
        (),
        ConfigError,
    >)
        ensures
            r is Ok <==> !old(self).config().3 && !old(self).config().4,
            r is Ok ==> final(self).blocks().len() == old(self).blocks().len() + 1 && final(self).blocks().drop_last() == old(self).blocks() && final(self).blocks().last().schedule_id
                == schedule && final(self).blocks().last().systems@ == systems@,
            r is Err ==> final(self).blocks() == old(self).blocks(),
            final(self).schedules() == old(self).schedules(),
            final(self).config() == old(self).config(),
    {
        self.configuration.not_ready()?;
        self.total_systems_blocks.push(SystemsBlock { schedule_id: schedule, systems });
        assert(self.total_systems_blocks@.drop_last() =~= old(self).total_systems_blocks@);
        Ok(())
    }

    /// Adds plugins by name, while the application is still being
    /// configured.
    pub fn add_plugins(&mut self, names: Vec<&'static str>) -> (r: Result<(), ConfigError>)
        ensures
            r is Ok <==> !old(self).config().3 && !old(self).config().4,
            r matches Err(e) ==> e is AlreadyBuilt,
            final(self).plugins() == if r is Ok {
                old(self).plugins() + names@
            } else {
                old(self).plugins()
            },
            final(self).schedules() == old(self).schedules(),
            final(self).blocks() == old(self).blocks(),
            final(self).config() == old(self).config(),
            final(self).removed_systems() == old(self).removed_systems(),
    {
        if self.configuration.built || self.configuration.ran_startup {
            return Err(ConfigError::AlreadyBuilt);
        }
        let mut names = names;
        self.plugin_names.append(&mut names);
        Ok(())
    }

    /// Registers the default frame schedules `First`, `PreUpdate`, `Update`,
    /// `PostUpdate`, `CleanupHandles`, `ApplyCommands` and `Last`, while the
    /// application is still being configured.
    pub fn add_default_schedules(&mut self) -> (r: Result<(), ConfigError>)
        ensures
            r is Ok <==> !old(self).config().3 && !old(self).config().4,
            r matches Err(e) ==> e is AlreadyBuilt,
            r is Err ==> final(self).schedules() == old(self).schedules(),
            r is Ok ==> {
                &&& final(self).schedules().len() == old(self).schedules().len() + 7
                &&& final(self).schedules().subrange(0, old(self).schedules().len() as int) == old(self).schedules()
                &&& forall|k: int|
                    0 <= k < 7 ==> {
                        let sch = #[trigger] final(self).schedules()[old(self).schedules().len() + k];
                        &&& sch.label == crate::schedule::default_labels()[k + 1]
                        &&& sch.place == crate::schedule::default_place(sch.label)
                        &&& sch.runner == crate::schedule::default_runner(sch.label)
                        &&& sch.systems@.len() == 0
                    }
            },
            final(self).blocks() == old(self).blocks(),
            final(self).config() == old(self).config(),
            final(self).plugins() == old(self).plugins(),
            final(self).removed_systems() == old(self).removed_systems(),
    {
        if self.configuration.built || self.configuration.ran_startup {
            return Err(ConfigError::AlreadyBuilt);
        }
        let ghost n: int = self.schedules@.len() as int;
        crate::schedule::DefaultSchedulesPlugin.build(&mut self.schedules);
        proof {
            assert(self.schedules@.subrange(0, n) =~= old(self).schedules@);
            let d = crate::schedule::default_labels();
            assert(self.schedules@[n + 0].label == d[1]);
            assert(self.schedules@[n + 1].label == d[2]);
            assert(self.schedules@[n + 2].label == d[3]);
            assert(self.schedules@[n + 3].label == d[4]);
            assert(self.schedules@[n + 4].label == d[5]);
            assert(self.schedules@[n + 5].label == d[6]);
            assert(self.schedules@[n + 6].label == d[7]);
            assert forall|k: int| 0 <= k < 7 implies {
                let sch = #[trigger] self.schedules@[n + k];
                &&& sch.label == d[k + 1]
                &&& sch.place == crate::schedule::default_place(sch.label)
                &&& sch.runner == crate::schedule::default_runner(sch.label)
                &&& sch.systems@.len() == 0
            } by {
                assert(n <= n + k < self.schedules@.len());
                assert(self.schedules@[n + k].systems@.len() == 0);
                if k == 0 {
                } else if k == 1 {
                } else if k == 2 {
                } else if k == 3 {
                } else if k == 4 {
                } else if k == 5 {
                } else {
                }
            }
        }
        Ok(())
    }

    /// The plugins are done: their names are registered, and a name added
    /// twice is refused.
    pub fn finish_plugins(&mut self) -> (r: Result<(), ConfigError>)
        ensures
            r is Ok <==> !old(self).config().3 && !old(self).config().4 && forall|k: int|
                0 <= k < old(self).plugins().len() ==> !name_seen(
                    Seq::<&'static str>::empty() + old(self).plugins().subrange(0, k),
                    #[trigger] old(self).plugins()[k],
                ),
            r is Ok ==> final(self).config() == (true, old(self).config().1, old(self).config().2, old(self).config().3, old(self).config().4),
            r is Err ==> final(self).config() == old(self).config(),
            (old(self).config().3 || old(self).config().4) ==> r matches Err(ConfigError::AlreadyBuilt),
            r matches Err(ConfigError::DuplicatePlugin(n)) ==> exists|k: int|
                0 <= k < old(self).plugins().len() && n == old(self).plugins()[k] && name_seen(
                    Seq::<&'static str>::empty() + old(self).plugins().subrange(0, k),
                    old(self).plugins()[k],
                ),
            final(self).schedules() == old(self).schedules(),
            final(self).blocks() == old(self).blocks(),
            final(self).plugins() == old(self).plugins(),
            final(self).removed_systems() == old(self).removed_systems(),
    {
        if self.configuration.built || self.configuration.ran_startup {
            return Err(ConfigError::AlreadyBuilt);
        }
        let mut seen: Vec<&'static str> = Vec::new();
        let ghost e = seen@;
        assert(e =~= Seq::<&'static str>::empty());
        let names = &self.plugin_names;
        let res = register_plugin_names(&mut seen, names);
        assert(names@ == old(self).plugin_names@);
        assert(seen@ == Seq::<&'static str>::empty() + names@ || res is Err);
        match res {
            Ok(()) => {
                assert(forall|k: int| 0 <= k < names@.len() ==> !name_seen(Seq::<&'static str>::empty() + names@.subrange(0, k), #[trigger] names@[k]));
                self.configuration.plugins_processed = true;
                Ok(())
            },
            Err(err) => {
                proof {
                    let k = choose|k: int|
                        !(0 <= k < names@.len() ==> !name_seen(
                            Seq::<&'static str>::empty() + names@.subrange(0, k),
                            #[trigger] names@[k],
                        ));
                    assert(names@ == old(self).plugins());
                    assert(!(0 <= k < old(self).plugins().len() ==> !name_seen(
                        Seq::<&'static str>::empty() + old(self).plugins().subrange(0, k),
                        old(self).plugins()[k],
                    )));
                }
                Err(err)
            },
        }
    }

    /// Hands out the next batch of plugins to build: those added since the
    /// last batch, in order. A name that repeats one handed out before, or
    /// one earlier in the batch, refuses the batch. Plugins that a batch's
    /// builds add form the next batch; an empty batch ends plugin
    /// processing.
    pub fn next_plugin_batch(&mut self) -> (r: Result<Vec<&'static str>, ConfigError>)
        ensures
            (old(self).config().3 || old(self).config().4) ==> r matches Err(ConfigError::AlreadyBuilt),
            !old(self).config().3 && !old(self).config().4 ==> (r is Ok <==> names_fresh(
                old(self).built_plugins(),
                old(self).plugins(),
            )),
            !old(self).config().3 && !old(self).config().4 ==> (r matches Err(e) ==> e is DuplicatePlugin),
            r matches Err(ConfigError::DuplicatePlugin(n)) ==> exists|k: int|
                0 <= k < old(self).plugins().len() && n == old(self).plugins()[k] && name_seen(
                    old(self).built_plugins() + old(self).plugins().subrange(0, k),
                    old(self).plugins()[k],
                ),
            r matches Ok(batch) ==> {
                &&& batch@ == old(self).plugins()
                &&& final(self).plugins() == Seq::<&'static str>::empty()
                &&& final(self).built_plugins() == old(self).built_plugins() + batch@
                &&& final(self).config() == (
                    old(self).config().0 || batch@.len() == 0,
                    old(self).config().1,
                    old(self).config().2,
                    old(self).config().3,
                    old(self).config().4,
                )
            },
            r is Err ==> final(self).config() == old(self).config(),
            final(self).schedules() == old(self).schedules(),
            final(self).blocks() == old(self).blocks(),
            final(self).removed_systems() == old(self).removed_systems(),
    {
        if self.configuration.built || self.configuration.ran_startup {
            return Err(ConfigError::AlreadyBuilt);
        }
        let mut seen = self.built_plugins.clone();
        assert(seen@ == old(self).built_plugins@);
        let ghost names = self.plugin_names@;
        let ghost b0 = self.built_plugins@;
        let res = register_plugin_names(&mut seen, &self.plugin_names);
        match res {
            Ok(()) => {
                assert(names_fresh(b0, names));
                let mut batch: Vec<&'static str> = Vec::new();
                std::mem::swap(&mut batch, &mut self.plugin_names);
                self.built_plugins = seen;
                if batch.len() == 0 {
                    self.configuration.plugins_processed = true;
                }
                Ok(batch)
            },
            Err(e) => {
                assert(!names_fresh(b0, names));
                Err(e)
            },
        }
    }

    /// Initialises event type `id` in `world`, while the application is
    /// still being configured; an event initialised twice is refused.
    pub fn init_event<V, R, E, C>(&self, world: &mut crate::world::World<V, R, E, C>, id: crate::validation::ComponentId) -> (r: Result<(), ConfigError>)
        requires
            old(world).wf(),
        ensures
            final(world).wf(),
            r is Ok <==> !self.config().3 && !self.config().4 && !old(world).events().contains_key(id),
            (self.config().3 || self.config().4) ==> r matches Err(ConfigError::AlreadyBuilt),
            r matches Err(ConfigError::EventAlreadyInitialized(x)) ==> x == id && old(world).events().contains_key(id),
            r is Ok ==> final(world).tracked_events() == old(world).tracked_events().push((id, id))
                && final(world).events().dom() == old(world).events().dom().insert(id)
                && final(world).events()[id].readable() == Seq::<E>::empty()
                && final(world).events()[id].pending() == Seq::<E>::empty(),
            r is Err ==> final(world).events() == old(world).events() && final(world).tracked_events()
                == old(world).tracked_events(),
            final(world).resources() == old(world).resources(),
    {
        if self.configuration.built || self.configuration.ran_startup {
            return Err(ConfigError::AlreadyBuilt);
        }
        match world.init_event(id) {
            Ok(()) => Ok(()),
            Err(_) => Err(ConfigError::EventAlreadyInitialized(id)),
        }
    }

    /// Arranges the schedules into execution order.
    pub fn configure_schedules(&mut self) -> (r: Result<(), ConfigError>)
        ensures
            r is Ok ==> final(self).config() == (old(self).config().0, true, old(self).config().2, old(self).config().3, old(self).config().4),
            r is Err ==> final(self).config() == old(self).config(),
            r is Ok ==> crate::ordering::is_valid_order(
                old(self).schedules(),
                crate::schedule::startup_id().id,
                crate::ordering::label_ids(final(self).schedules()),
            ) && forall|k: int|
                0 <= k < final(self).schedules().len() ==> old(self).schedules().contains(
                    #[trigger] final(self).schedules()[k],
                ),
            r is Ok <==> crate::ordering::ids_unique(old(self).schedules()) && crate::ordering::has_id(
                old(self).schedules(),
                crate::schedule::startup_id().id,
            ) && crate::ordering::no_placement_errors(
                old(self).schedules(),
                crate::schedule::startup_id().id,
            ) && exists|o: Seq<u64>| #[trigger] crate::ordering::is_valid_order(
                old(self).schedules(),
                crate::schedule::startup_id().id,
                o,
            ),
            r is Err ==> (r matches Err(ConfigError::Schedules(se)) && crate::ordering::schedule_error_for(
                old(self).schedules(),
                crate::schedule::startup_id().id,
                se,
            )),
            final(self).blocks() == old(self).blocks(),
            final(self).removed_systems() == old(self).removed_systems(),
    {
        let mut unarranged: Vec<Schedule<S>> = Vec::new();
        std::mem::swap(&mut unarranged, &mut self.schedules);
        match order_schedules(unarranged, Startup::id()) {
            Ok(arranged) => {
                self.schedules = arranged;
                self.configuration.schedules_added = true;
                Ok(())
            },
            Err(e) => Err(ConfigError::Schedules(e)),
        }
    }
}


/// Position `i` is the first schedule carrying label number `id`.
pub open spec fn is_first_with<S>(schedules: Seq<Schedule<S>>, id: u64, i: int) -> bool {
    &&& 0 <= i < schedules.len()
    &&& schedules[i].label.id == id
    &&& forall|j: int| 0 <= j < i ==> schedules[j].label.id != id
}

/// The systems that the blocks add to the schedule at position `i`: those
/// aimed at its label, when it is the first schedule with that label.
pub open spec fn added_to<S>(schedules: Seq<Schedule<S>>, blocks: Seq<SystemsBlock<S>>, i: int) -> Seq<S> {
    if is_first_with(schedules, schedules[i].label.id, i) {
        routed(blocks, schedules[i].label.id)
    } else {
        Seq::empty()
    }
}

/// The block at position `b` is the first aimed at a label that no
/// schedule carries.
pub open spec fn is_first_unrouted<S>(schedules: Seq<Schedule<S>>, blocks: Seq<SystemsBlock<S>>, b: int) -> bool {
    &&& 0 <= b < blocks.len()
    &&& !schedule_has(schedules, blocks[b].schedule_id.id)
    &&& forall|c: int| 0 <= c < b ==> schedule_has(schedules, #[trigger] blocks[c].schedule_id.id)
}

/// Start-up may run: everything is built and start-up has not run yet.
pub open spec fn startup_allowed(c: (bool, bool, bool, bool, bool)) -> bool {
    c.0 && c.1 && c.2 && c.3 && !c.4
}

/// A frame may run: everything is built and start-up has run.
pub open spec fn update_allowed(c: (bool, bool, bool, bool, bool)) -> bool {
    c.0 && c.1 && c.2 && c.3 && c.4
}

/// Start-up runs at most once, frames only after it, and configuration
/// changes are refused once the application is built.
pub proof fn lemma_life_cycle(c: (bool, bool, bool, bool, bool))
    ensures
        startup_allowed(c) ==> !startup_allowed((c.0, c.1, c.2, c.3, true)),
        startup_allowed(c) ==> update_allowed((c.0, c.1, c.2, c.3, true)),
        update_allowed(c) ==> !startup_allowed(c),
        (c.3 || c.4) ==> !(!c.3 && !c.4),
{
}

impl<S> App<S> {
    /// While built but not started, the start-up schedule comes first.
    pub closed spec fn wf(&self) -> bool {
        &&& self.configuration.built && !self.configuration.ran_startup ==> self.schedules@.len() > 0
            && self.schedules@[0].label.id == crate::schedule::startup_id().id
        &&& !self.configuration.ran_startup ==> self.systems_run_at_startup == 0
        &&& self.configuration.built ==> numbered(self.ids(), self.schedules@, self.systems_run_at_startup as nat)
    }

    pub proof fn lemma_new_wf(&self)
        requires
            self.config() == (false, false, false, false, false),
            self.removed_systems() == 0,
        ensures
            self.wf(),
    {
    }

    /// Numbers the systems of all schedules from 0, in execution order.
    fn assign_ids(&mut self)
        ensures
            numbered(final(self).ids(), final(self).schedules(), 0),
            final(self).schedules() == old(self).schedules(),
            final(self).blocks() == old(self).blocks(),
            final(self).config() == old(self).config(),
            final(self).plugins() == old(self).plugins(),
            final(self).removed_systems() == old(self).removed_systems(),
    {
        let mut all: Vec<Vec<u32>> = Vec::new();
        let mut running: u32 = 0;
        let n = self.schedules.len();
        let mut k: usize = 0;
        while k < n
            invariant
                k <= n,
                n == self.schedules@.len(),
                all@.len() == k,
                running as int == systems_before(self.schedules@, k as int) % 0x1_0000_0000,
                forall|q: int|
                    0 <= q < k ==> {
                        &&& (#[trigger] all@[q])@.len() == self.schedules@[q].systems@.len()
                        &&& forall|i: int| 0 <= i < all@[q]@.len() ==> #[trigger] all@[q]@[i] == numbered_id(self.schedules@, 0, q, i)
                    },
            decreases n - k,
        {
            let len = self.schedules[k].systems.len();
            let mut row: Vec<u32> = Vec::new();
            let mut i: usize = 0;
            while i < len
                invariant
                    i <= len,
                    k < n,
                    n == self.schedules@.len(),
                    len == self.schedules@[k as int].systems@.len(),
                    row@.len() == i,
                    running as int == (systems_before(self.schedules@, k as int) + i) % 0x1_0000_0000,
                    forall|j: int| 0 <= j < i ==> #[trigger] row@[j] == numbered_id(self.schedules@, 0, k as int, j),
                decreases len - i,
            {
                row.push(running);
                proof {
                    let m: int = 0x1_0000_0000;
                    let a: int = systems_before(self.schedules@, k as int) + i;
                    vstd::arithmetic::div_mod::lemma_add_mod_noop(a, 1, m);
                    assert(1int % m == 1);
                    if running as int + 1 < m {
                        vstd::arithmetic::div_mod::lemma_small_mod((running as int + 1) as nat, m as nat);
                    } else {
                        vstd::arithmetic::div_mod::lemma_mod_self_0(m);
                    }
                }
                running = running.wrapping_add(1);
                i += 1;
            }
            all.push(row);
            k += 1;
        }
        self.system_ids = all;
        proof {
            assert forall|q: int| 0 <= q < n implies {
                &&& (#[trigger] self.ids()[q]).len() == self.schedules@[q].systems@.len()
                &&& forall|i: int| 0 <= i < self.ids()[q].len() ==> #[trigger] self.ids()[q][i] == numbered_id(self.schedules@, 0, q, i)
            } by {
                assert(self.ids()[q] == all@[q]@);
            }
        }
    }

    /// Moves every queued system block into the first schedule with its
    /// label, in block order, then numbers all systems from 0 in execution
    /// order; refuses the first block aimed at a label that no schedule
    /// carries.
    pub fn configure_systems(&mut self) -> (r: Result<(), ConfigError>)
        ensures
            final(self).blocks().len() == 0,
            r is Ok <==> forall|b: int|
                0 <= b < old(self).blocks().len() ==> schedule_has(
                    old(self).schedules(),
                    #[trigger] old(self).blocks()[b].schedule_id.id,
                ),
            r matches Err(e) ==> exists|b: int|
                is_first_unrouted(old(self).schedules(), old(self).blocks(), b) && e
                    == ConfigError::MissingSchedule(old(self).blocks()[b].schedule_id),
            r is Ok ==> {
                &&& final(self).schedules().len() == old(self).schedules().len()
                &&& forall|i: int|
                    0 <= i < old(self).schedules().len() ==> {
                        &&& (#[trigger] final(self).schedules()[i]).label == old(self).schedules()[i].label
                        &&& final(self).schedules()[i].place == old(self).schedules()[i].place
                        &&& final(self).schedules()[i].runner == old(self).schedules()[i].runner
                        &&& final(self).schedules()[i].systems@ == old(self).schedules()[i].systems@
                            + added_to(old(self).schedules(), old(self).blocks(), i)
                    }
                &&& final(self).config() == (old(self).config().0, old(self).config().1, true, old(self).config().3, old(self).config().4)
                &&& numbered(final(self).ids(), final(self).schedules(), 0)
            },
            r is Err ==> final(self).config() == old(self).config(),
            final(self).removed_systems() == old(self).removed_systems(),
    {
        let ghost sch0 = self.schedules@;
        let mut blocks: Vec<SystemsBlock<S>> = Vec::new();
        std::mem::swap(&mut blocks, &mut self.total_systems_blocks);
        let ghost bs = blocks@;
        let block_count = blocks.len();
        proof {
            assert(bs.len() == block_count as int);
        }
        let n = self.schedules.len();
        let mut b: usize = 0;
        while blocks.len() > 0
            invariant
                b + blocks@.len() == bs.len(),
                bs.len() <= usize::MAX,
                forall|c: int| 0 <= c < blocks@.len() ==> blocks@[c] == bs[b + c],
                self.total_systems_blocks@.len() == 0,
                self.configuration == old(self).configuration,
                self.systems_run_at_startup == old(self).systems_run_at_startup,
                n == sch0.len(),
                sch0 == old(self).schedules@,
                bs == old(self).total_systems_blocks@,
                self.schedules@.len() == n,
                forall|c: int| 0 <= c < b ==> schedule_has(sch0, #[trigger] bs[c].schedule_id.id),
                forall|i: int|
                    0 <= i < n ==> {
                        &&& (#[trigger] self.schedules@[i]).label == sch0[i].label
                        &&& self.schedules@[i].place == sch0[i].place
                        &&& self.schedules@[i].runner == sch0[i].runner
                        &&& self.schedules@[i].systems@ == sch0[i].systems@ + added_to(
                            sch0,
                            bs.subrange(0, b as int),
                            i,
                        )
                    },
            decreases blocks@.len(),
        {
            let ghost blocks_before = blocks@;
            assert(b < bs.len());
            let block = blocks.remove(0);
            assert(block == bs[b as int]);
            let target = block.schedule_id.id;
            let mut idx: usize = 0;
            while idx < n && self.schedules[idx].label.id != target
                invariant
                    idx <= n,
                    n == self.schedules@.len(),
                    forall|j: int| 0 <= j < idx ==> self.schedules@[j].label.id != target,
                decreases n - idx,
            {
                idx += 1;
            }
            if idx == n {
                proof {
                    assert forall|j: int| 0 <= j < n implies sch0[j].label.id != target by {
                        assert(self.schedules@[j].label == sch0[j].label);
                    }
                    assert(is_first_unrouted(sch0, bs, b as int));
                    assert(!schedule_has(old(self).schedules(), old(self).blocks()[b as int].schedule_id.id));
                }
                return Err(ConfigError::MissingSchedule(block.schedule_id));
            }
            let ghost before = self.schedules@;
            let mut sched = self.schedules.remove(idx);
            let mut systems = block.systems;
            let ghost added = systems@;
            sched.systems.append(&mut systems);
            self.schedules.insert(idx, sched);
            proof {
                assert(self.schedules@[idx as int] == sched);
                assert(is_first_with(sch0, target, idx as int)) by {
                    assert(before[idx as int].label == sch0[idx as int].label);
                    assert forall|j: int| 0 <= j < idx implies sch0[j].label.id != target by {
                        assert(before[j].label == sch0[j].label);
                    }
                }
                assert(schedule_has(sch0, bs[b as int].schedule_id.id)) by {
                    assert(sch0[idx as int].label.id == target);
                }
                let bs0 = bs.subrange(0, b as int);
                let bs1 = bs.subrange(0, b as int + 1);
                assert(bs1.drop_last() =~= bs0);
                assert(bs1.last() == block);
                assert forall|i: int| 0 <= i < n implies {
                    &&& (#[trigger] self.schedules@[i]).label == sch0[i].label
                    &&& self.schedules@[i].place == sch0[i].place
                    &&& self.schedules@[i].runner == sch0[i].runner
                    &&& self.schedules@[i].systems@ == sch0[i].systems@ + added_to(sch0, bs1, i)
                } by {
                    if i == idx {
                        assert(before[i].systems@ == sch0[i].systems@ + added_to(sch0, bs0, i));
                        assert(added_to(sch0, bs1, i) == added_to(sch0, bs0, i) + added);
                        assert(sched.systems@ == before[i].systems@ + added);
                        assert(self.schedules@[i].systems@ =~= sch0[i].systems@ + added_to(sch0, bs1, i));
                    } else {
                        if i < idx {
                            assert(self.schedules@[i] == before.remove(idx as int)[i]);
                        } else {
                            assert(self.schedules@[i] == before.remove(idx as int)[i - 1]);
                        }
                        assert(self.schedules@[i] == before[i]);
                        if is_first_with(sch0, sch0[i].label.id, i) {
                            assert(sch0[i].label.id != target);
                            assert(routed(bs1, sch0[i].label.id) =~= routed(bs0, sch0[i].label.id));
                        }
                        assert(added_to(sch0, bs1, i) =~= added_to(sch0, bs0, i));
                    }
                }
                assert forall|c: int| 0 <= c < blocks@.len() implies blocks@[c] == bs[b + 1 + c] by {
                    assert(blocks@[c] == blocks_before[c + 1]);
                }
            }
            b += 1;
        }
        proof {
            assert(bs.subrange(0, bs.len() as int) =~= bs);
        }
        self.configuration.systems_added = true;
        self.assign_ids();
        Ok(())
    }

    /// The id given to the system at position `i` of schedule `k` when the
    /// application was built: systems are numbered from 0 across all
    /// schedules in execution order, the start-up systems first.
    pub fn system_id(&self, k: usize, i: usize) -> (r: crate::validation::SystemId)
        requires
            self.wf(),
            self.config().3,
            k < self.schedules().len(),
            i < self.schedules()[k as int].systems@.len(),
        ensures
            r.0 == self.ids()[k as int][i as int],
            r.0 == numbered_id(self.schedules(), self.removed_systems(), k as int, i as int),
    {
        proof {
            assert(self.ids()[k as int] == self.system_ids@[k as int]@);
        }
        crate::validation::SystemId::new(self.system_ids[k][i])
    }

    /// The generation data a system starts with: its id, and no run yet.
    pub fn generation_data(&self, k: usize, i: usize) -> (r: crate::validation::FunctionGenerationData)
        requires
            self.wf(),
            self.config().3,
            k < self.schedules().len(),
            i < self.schedules()[k as int].systems@.len(),
        ensures
            r.system_id == numbered_id(self.schedules(), self.removed_systems(), k as int, i as int),
            r.last_run_generation == 0,
            r.current_run_generation == 0,
    {
        let mut data = crate::validation::FunctionGenerationData::new();
        data.system_id = self.system_id(k, i).get_id();
        data
    }

    /// Builds the application: arranges the schedules, then places the
    /// queued systems. Refused once built or started, when the schedules
    /// cannot be arranged, or when systems are aimed at an unregistered
    /// label.
    pub fn build(&mut self) -> (r: Result<(), ConfigError>)
        requires
            old(self).wf(),
        ensures
            final(self).wf(),
            r is Ok <==> !old(self).config().3 && !old(self).config().4 && arrangeable(old(self).schedules())
                && all_routed(old(self).schedules(), old(self).blocks()),
            r is Ok ==> final(self).config() == (old(self).config().0, true, true, true, old(self).config().4),
            r is Ok ==> built_from(old(self).schedules(), old(self).blocks(), final(self).schedules()),
            r is Ok ==> final(self).blocks().len() == 0,
            r is Ok ==> numbered(final(self).ids(), final(self).schedules(), 0) && final(self).removed_systems() == 0,
            !old(self).config().3 && !old(self).config().4 && !arrangeable(old(self).schedules()) ==> (r matches Err(
                ConfigError::Schedules(se),
            ) && crate::ordering::schedule_error_for(old(self).schedules(), crate::schedule::startup_id().id, se)),
            !old(self).config().3 && !old(self).config().4 && arrangeable(old(self).schedules()) && !all_routed(
                old(self).schedules(),
                old(self).blocks(),
            ) ==> exists|b: int|
                is_first_unrouted(old(self).schedules(), old(self).blocks(), b) && r == Err::<(), ConfigError>(
                    ConfigError::MissingSchedule(old(self).blocks()[b].schedule_id),
                ),
            (old(self).config().3 || old(self).config().4) ==> r matches Err(ConfigError::AlreadyBuilt),
            !final(self).config().3 ==> final(self).config().4 == old(self).config().4,
    {
        self.configuration.not_ready()?;
        let ghost s0 = self.schedules@;
        let ghost b0 = self.total_systems_blocks@;
        self.configure_schedules()?;
        let ghost arranged = self.schedules@;
        proof {
            assert(self.schedules@.len() > 0);
            lemma_arranged_same_labels(s0, arranged);
            assert(all_routed(s0, b0) <==> forall|b: int|
                0 <= b < b0.len() ==> schedule_has(arranged, #[trigger] b0[b].schedule_id.id));
        }
        match self.configure_systems() {
            Ok(()) => {},
            Err(e) => {
                proof {
                    let b = choose|b: int| is_first_unrouted(arranged, b0, b) && e == ConfigError::MissingSchedule(b0[b].schedule_id);
                    assert(schedule_has(arranged, b0[b].schedule_id.id) <==> schedule_has(s0, b0[b].schedule_id.id));
                    assert forall|c: int| 0 <= c < b implies schedule_has(s0, #[trigger] b0[c].schedule_id.id) by {
                        assert(schedule_has(arranged, b0[c].schedule_id.id));
                    }
                    assert(is_first_unrouted(s0, b0, b));
                }
                return Err(e);
            },
        }
        proof {
            assert(self.schedules@[0].label == arranged[0].label);
            let st = crate::schedule::startup_id().id;
            let fin = self.schedules@;
            assert(crate::ordering::label_ids(fin) =~= crate::ordering::label_ids(arranged));
            assert forall|k: int| 0 <= k < fin.len() implies exists|j: int|
                0 <= j < s0.len() && s0[j].label == (#[trigger] fin[k]).label && s0[j].place == fin[k].place
                    && s0[j].runner == fin[k].runner && fin[k].systems@ == s0[j].systems@ + routed(
                    b0,
                    fin[k].label.id,
                ) by {
                assert(s0.contains(arranged[k]));
                let j = choose|j: int| 0 <= j < s0.len() && s0[j] == arranged[k];
                assert(crate::ordering::label_ids(arranged)[k] == arranged[k].label.id);
                assert(is_first_with(arranged, arranged[k].label.id, k)) by {
                    assert forall|q: int| 0 <= q < k implies arranged[q].label.id != arranged[k].label.id by {
                        assert(crate::ordering::label_ids(arranged)[q] == arranged[q].label.id);
                    }
                }
                assert(s0[j].label == fin[k].label);
            }
        }
        self.configuration.built = true;
        Ok(())
    }

    /// Start-up: refused unless built and not yet started; hands out the
    /// start-up schedule to run, and marks start-up as done.
    pub fn run_startup(&mut self) -> (r: Result<Schedule<S>, ConfigError>)
        requires
            old(self).wf(),
        ensures
            final(self).wf(),
            r is Ok <==> startup_allowed(old(self).config()),
            r is Ok ==> final(self).config() == (old(self).config().0, old(self).config().1, old(self).config().2, old(self).config().3, true),
            r is Err ==> final(self).config() == old(self).config(),
            r matches Ok(s) ==> s == old(self).schedules()[0] && s.label.id
                == crate::schedule::startup_id().id && final(self).schedules() == old(
                self).schedules().drop_first(),
            r matches Err(e) ==> old(self).config().0 && old(self).config().1 && old(self).config().2 && old(self).config().3 ==> e is StartupAlreadyRan,
            r is Ok ==> final(self).removed_systems() == old(self).schedules()[0].systems@.len(),
            r is Err ==> final(self).removed_systems() == old(self).removed_systems(),
    {
        self.configuration.built()?;
        if self.configuration.ran_startup {
            return Err(ConfigError::StartupAlreadyRan);
        }
        let ghost ids0 = self.ids();
        let startup = self.schedules.remove(0);
        self.systems_run_at_startup = startup.systems.len();
        self.configuration.ran_startup = true;
        assert(self.schedules@ =~= old(self).schedules@.drop_first());
        if self.system_ids.len() > 0 {
            self.system_ids.remove(0);
        }
        proof {
            let s0 = old(self).schedules@;
            let s1 = self.schedules@;
            assert(self.ids() =~= ids0.drop_first());
            assert forall|k: int| 0 <= k < s1.len() implies {
                &&& (#[trigger] self.ids()[k]).len() == s1[k].systems@.len()
                &&& forall|i: int| 0 <= i < self.ids()[k].len() ==> #[trigger] self.ids()[k][i] == numbered_id(s1, self.systems_run_at_startup as nat, k, i)
            } by {
                assert(self.ids()[k] == ids0[k + 1]);
                assert(s1[k] == s0[k + 1]);
                lemma_systems_before_drop_first(s0, k + 1);
                assert forall|i: int| 0 <= i < self.ids()[k].len() implies #[trigger] self.ids()[k][i] == numbered_id(s1, self.systems_run_at_startup as nat, k, i) by {
                    assert(ids0[k + 1][i] == numbered_id(s0, 0, k + 1, i));
                }
            }
        }
        Ok(startup)
    }

    /// A frame: refused unless built and started.
    pub fn update(&self) -> (r: Result<(), ConfigError>)
        ensures
            r is Ok <==> update_allowed(self.config()),
    {
        self.configuration.built()?;
        self.configuration.ran_startup()?;
        Ok(())
    }

    /// The schedules, in execution order once built.
    pub fn schedule_list(&self) -> (r: &Vec<Schedule<S>>)
        ensures
            r@ == self.schedules(),
    {
        &self.schedules
    }
}

proof fn lemma_systems_before_mono<S>(schedules: Seq<Schedule<S>>, i: int, j: int)
    requires
        0 <= i <= j,
    ensures
        systems_before(schedules, i) <= systems_before(schedules, j),
    decreases j - i,
{
    if i < j {
        lemma_systems_before_mono(schedules, i, j - 1);
    }
}


/// An arranged list of schedules carries the same labels as the registered
/// ones.
proof fn lemma_arranged_same_labels<S>(s: Seq<Schedule<S>>, arranged: Seq<Schedule<S>>)
    requires
        crate::ordering::is_valid_order(s, crate::schedule::startup_id().id, crate::ordering::label_ids(arranged)),
    ensures
        forall|id: u64| #[trigger] schedule_has(arranged, id) <==> crate::ordering::has_id(s, id),
{
    let o = crate::ordering::label_ids(arranged);
    assert forall|id: u64| #[trigger] schedule_has(arranged, id) <==> crate::ordering::has_id(s, id) by {
        if schedule_has(arranged, id) {
            let i = choose|i: int| 0 <= i < arranged.len() && (#[trigger] arranged[i]).label.id == id;
            assert(o[i] == id);
        }
        if crate::ordering::has_id(s, id) {
            let i = choose|i: int| 0 <= i < s.len() && s[i].label.id == id;
            assert(o.contains(s[i].label.id));
            let k = choose|k: int| 0 <= k < o.len() && o[k] == s[i].label.id;
            assert(arranged[k].label.id == id);
        }
    }
}


/// System ids are a numbering of the systems in execution order: the
/// system at position `i` of schedule `k` gets `systems_before(k) + i`, so
/// two distinct positions get distinct ids, all below the total, and a
/// later position gets a larger id. Handing out the first schedule keeps
/// every other system's id.
pub proof fn lemma_system_ids<S>(schedules: Seq<Schedule<S>>, k1: int, i1: int, k2: int, i2: int)
    requires
        0 <= k1 < schedules.len(),
        0 <= i1 < schedules[k1].systems@.len(),
        0 <= k2 < schedules.len(),
        0 <= i2 < schedules[k2].systems@.len(),
    ensures
        (k1 < k2 || (k1 == k2 && i1 < i2)) ==> systems_before(schedules, k1) + i1 < systems_before(schedules, k2) + i2,
        systems_before(schedules, k1) + i1 < systems_before(schedules, schedules.len() as int),
        k1 > 0 ==> systems_before(schedules, k1) + i1 == schedules[0].systems@.len() + systems_before(
            schedules.drop_first(),
            k1 - 1,
        ) + i1,
{
    lemma_systems_before_mono(schedules, k1 + 1, schedules.len() as int);
    if k1 < k2 {
        lemma_systems_before_mono(schedules, k1 + 1, k2);
    }
    if k1 > 0 {
        lemma_systems_before_drop_first(schedules, k1);
    }
}

proof fn lemma_systems_before_drop_first<S>(schedules: Seq<Schedule<S>>, k: int)
    requires
        1 <= k <= schedules.len(),
    ensures
        systems_before(schedules, k) == schedules[0].systems@.len() + systems_before(schedules.drop_first(), k - 1),
    decreases k,
{
    assert(systems_before(schedules, 0) == 0);
    assert(systems_before(schedules.drop_first(), 0) == 0);
    if k > 1 {
        lemma_systems_before_drop_first(schedules, k - 1);
        assert(schedules.drop_first()[k - 2] == schedules[k - 1]);
    }
}

} // verus!
