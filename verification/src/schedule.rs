//! Schedule labels, their placement constraints and the step plans that their
//! runners follow.
use vstd::prelude::*;

verus! {

/// Identity of a schedule label: a number distinct per label type, with the
/// label's name kept for diagnostics.
#[derive(Clone, Copy, Debug)]
pub struct ScheduleId {
    pub id: u64,
    pub name: &'static str,
}

impl ScheduleId {
    pub fn new(id: u64, name: &'static str) -> (r: ScheduleId)
        ensures
            r.id == id,
            r.name == name,
    {
        ScheduleId { id, name }
    }
}

/// Two schedule ids are the same schedule when their numbers agree; the name
/// plays no part.
impl PartialEq for ScheduleId {
    fn eq(&self, other: &Self) -> (r: bool) {
        self.id == other.id
    }
}

impl vstd::std_specs::cmp::PartialEqSpecImpl for ScheduleId {
    open spec fn obeys_eq_spec() -> bool {
        true
    }

    open spec fn eq_spec(&self, other: &ScheduleId) -> bool {
        self.id == other.id
    }
}

/// Where a schedule runs relative to another one.
#[derive(Clone, Copy, Debug)]
pub enum SchedulePlace {
    Before(ScheduleId),
    After(ScheduleId),
}

/// How a schedule's runner interleaves its systems with command application.
#[derive(Clone, Copy, Debug, PartialEq, Eq)]
pub enum RunnerKind {
    /// Run every system once, in order.
    Plain,
    /// Run each system and apply all commands right after it.
    Startup,
    /// Apply queued commands, run the systems, apply queued commands again;
    /// despawns are left pending.
    CleanupHandles,
    /// Run the systems, then apply queued commands, then apply despawns.
    ApplyCommands,
}

/// One step of a schedule run.
#[derive(Clone, Copy, Debug, PartialEq, Eq)]
pub enum RunStep {
    /// Run the system at this position of the schedule.
    RunSystem(usize),
    /// Apply the command queue and then the despawns.
    ApplyAllCommands,
    /// Apply the command queue only.
    ApplyQueueCommands,
    /// Apply the pending despawns.
    ApplyDespawns,
}

/// The steps that a runner of the given kind takes for a schedule of `n`
/// systems.
pub open spec fn runner_plan(kind: RunnerKind, n: nat) -> Seq<RunStep>
    decreases n,
{
    match kind {
        RunnerKind::Plain => Seq::new(n, |i: int| RunStep::RunSystem(i as usize)),
        RunnerKind::Startup => Seq::new(
            2 * n,
            |i: int|
                if i % 2 == 0 {
                    RunStep::RunSystem((i / 2) as usize)
                } else {
                    RunStep::ApplyAllCommands
                },
        ),
        RunnerKind::CleanupHandles => seq![RunStep::ApplyQueueCommands] + Seq::new(
            n,
            |i: int| RunStep::RunSystem(i as usize),
        ) + seq![RunStep::ApplyQueueCommands],
        RunnerKind::ApplyCommands => Seq::new(n, |i: int| RunStep::RunSystem(i as usize)) + seq![
            RunStep::ApplyQueueCommands,
            RunStep::ApplyDespawns,
        ],
    }
}

/// Builds the step plan of a runner for `n` systems.
pub fn runner_steps(kind: RunnerKind, n: usize) -> (steps: Vec<RunStep>)
    requires
        2 * n + 2 <= usize::MAX,
    ensures
        steps@ == runner_plan(kind, n as nat),
{
    let mut steps: Vec<RunStep> = Vec::new();
    match kind {
        RunnerKind::Plain => {
            let mut i: usize = 0;
            while i < n
                invariant
                    i <= n,
                    steps@ == Seq::new(i as nat, |k: int| RunStep::RunSystem(k as usize)),
                decreases n - i,
            {
                steps.push(RunStep::RunSystem(i));
                i += 1;
            }
        },
        RunnerKind::Startup => {
            let mut i: usize = 0;
            while i < n
                invariant
                    i <= n,
                    2 * n + 2 <= usize::MAX,
                    steps@ == Seq::new(
                        (2 * i) as nat,
                        |k: int|
                            if k % 2 == 0 {
                                RunStep::RunSystem((k / 2) as usize)
                            } else {
                                RunStep::ApplyAllCommands
                            },
                    ),
                decreases n - i,
            {
                steps.push(RunStep::RunSystem(i));
                steps.push(RunStep::ApplyAllCommands);
                i += 1;
            }
        },
        RunnerKind::CleanupHandles => {
            steps.push(RunStep::ApplyQueueCommands);
            let mut i: usize = 0;
            while i < n
                invariant
                    i <= n,
                    steps@ == seq![RunStep::ApplyQueueCommands] + Seq::new(
                        i as nat,
                        |k: int| RunStep::RunSystem(k as usize),
                    ),
                decreases n - i,
            {
                steps.push(RunStep::RunSystem(i));
                i += 1;
            }
            steps.push(RunStep::ApplyQueueCommands);
        },
        RunnerKind::ApplyCommands => {
            let mut i: usize = 0;
            while i < n
                invariant
                    i <= n,
                    steps@ == Seq::new(i as nat, |k: int| RunStep::RunSystem(k as usize)),
                decreases n - i,
            {
                steps.push(RunStep::RunSystem(i));
                i += 1;
            }
            steps.push(RunStep::ApplyQueueCommands);
            steps.push(RunStep::ApplyDespawns);
        },
    }
    steps
}


/// A label naming a schedule, with the place it takes in the frame.
pub trait ScheduleLabel {
    spec fn spec_id(&self) -> ScheduleId;

    spec fn spec_place(&self) -> SchedulePlace;

    spec fn spec_runner(&self) -> RunnerKind;

    /// Where this schedule runs relative to another one.
    fn get_place(&self) -> (r: SchedulePlace)
        ensures
            r == self.spec_place(),
    ;

    /// The identity of this label.
    fn id_from_self(&self) -> (r: ScheduleId)
        ensures
            r == self.spec_id(),
    ;

    /// The runner that this label's schedule uses.
    fn runner_kind(&self) -> (r: RunnerKind)
        ensures
            r == self.spec_runner(),
    ;

    /// The name of this label.
    fn name(&self) -> (r: &'static str)
        ensures
            r == self.spec_id().name,
    {
        self.id_from_self().name
    }
}

/// A label type whose identity is known without a value of it.
pub trait IntoScheduleId {
    /// The identity of the label type; each label states its value.
    fn id() -> ScheduleId;
}

/// A schedule: its label, its place, its runner and the systems it runs.
pub struct Schedule<S> {
    pub label: ScheduleId,
    pub place: SchedulePlace,
    pub runner: RunnerKind,
    pub systems: Vec<S>,
}

impl<S> Schedule<S> {
    /// An empty schedule for the given label.
    pub fn new<T: ScheduleLabel>(schedule: T) -> (r: Schedule<S>)
        ensures
            r.label == schedule.spec_id(),
            r.place == schedule.spec_place(),
            r.runner == schedule.spec_runner(),
            r.systems@ == Seq::<S>::empty(),
    {
        Schedule {
            label: schedule.id_from_self(),
            place: schedule.get_place(),
            runner: schedule.runner_kind(),
            systems: Vec::new(),
        }
    }

    /// The steps of one run of this schedule.
    pub fn run(&self) -> (steps: Vec<RunStep>)
        requires
            2 * self.systems.len() + 2 <= usize::MAX,
        ensures
            steps@ == runner_plan(self.runner, self.systems.len() as nat),
    {
        runner_steps(self.runner, self.systems.len())
    }
}

pub open spec fn startup_id() -> ScheduleId {
    ScheduleId { id: 1, name: "Startup" }
}

pub open spec fn first_id() -> ScheduleId {
    ScheduleId { id: 2, name: "First" }
}

pub open spec fn pre_update_id() -> ScheduleId {
    ScheduleId { id: 3, name: "PreUpdate" }
}

pub open spec fn update_id() -> ScheduleId {
    ScheduleId { id: 4, name: "Update" }
}

pub open spec fn post_update_id() -> ScheduleId {
    ScheduleId { id: 5, name: "PostUpdate" }
}

pub open spec fn cleanup_handles_id() -> ScheduleId {
    ScheduleId { id: 6, name: "CleanupHandles" }
}

pub open spec fn apply_commands_id() -> ScheduleId {
    ScheduleId { id: 7, name: "ApplyCommands" }
}

pub open spec fn last_id() -> ScheduleId {
    ScheduleId { id: 8, name: "Last" }
}

/// The root schedule: it runs once, before every other schedule.
pub struct Startup;

/// Runs first in every frame.
pub struct First;

pub struct PreUpdate;

pub struct Update;

pub struct PostUpdate;

/// A special schedule where queue commands are applied immediately before
/// and after its systems run. Despawn commands are not applied yet.
pub struct CleanupHandles;

/// A special schedule where its systems run, followed by the execution of
/// queue commands, and finally the despawn commands.
pub struct ApplyCommands;

pub struct Last;

impl IntoScheduleId for Startup {
    fn id() -> (r: ScheduleId)
        ensures
            r == startup_id(),
    {
        ScheduleId { id: 1, name: "Startup" }
    }
}

impl IntoScheduleId for First {
    fn id() -> (r: ScheduleId)
        ensures
            r == first_id(),
    {
        ScheduleId { id: 2, name: "First" }
    }
}

impl IntoScheduleId for PreUpdate {
    fn id() -> (r: ScheduleId)
        ensures
            r == pre_update_id(),
    {
        ScheduleId { id: 3, name: "PreUpdate" }
    }
}

impl IntoScheduleId for Update {
    fn id() -> (r: ScheduleId)
        ensures
            r == update_id(),
    {
        ScheduleId { id: 4, name: "Update" }
    }
}

impl IntoScheduleId for PostUpdate {
    fn id() -> (r: ScheduleId)
        ensures
            r == post_update_id(),
    {
        ScheduleId { id: 5, name: "PostUpdate" }
    }
}

impl IntoScheduleId for CleanupHandles {
    fn id() -> (r: ScheduleId)
        ensures
            r == cleanup_handles_id(),
    {
        ScheduleId { id: 6, name: "CleanupHandles" }
    }
}

impl IntoScheduleId for ApplyCommands {
    fn id() -> (r: ScheduleId)
        ensures
            r == apply_commands_id(),
    {
        ScheduleId { id: 7, name: "ApplyCommands" }
    }
}

impl IntoScheduleId for Last {
    fn id() -> (r: ScheduleId)
        ensures
            r == last_id(),
    {
        ScheduleId { id: 8, name: "Last" }
    }
}

impl ScheduleLabel for Startup {
    open spec fn spec_id(&self) -> ScheduleId {
        startup_id()
    }

    open spec fn spec_place(&self) -> SchedulePlace {
        SchedulePlace::Before(first_id())
    }

    open spec fn spec_runner(&self) -> RunnerKind {
        RunnerKind::Startup
    }

    fn get_place(&self) -> (r: SchedulePlace) {
        SchedulePlace::Before(First::id())
    }

    fn id_from_self(&self) -> (r: ScheduleId) {
        Startup::id()
    }

    fn runner_kind(&self) -> (r: RunnerKind) {
        RunnerKind::Startup
    }
}

impl ScheduleLabel for First {
    open spec fn spec_id(&self) -> ScheduleId {
        first_id()
    }

    open spec fn spec_place(&self) -> SchedulePlace {
        SchedulePlace::After(startup_id())
    }

    open spec fn spec_runner(&self) -> RunnerKind {
        RunnerKind::Plain
    }

    fn get_place(&self) -> (r: SchedulePlace) {
        SchedulePlace::After(Startup::id())
    }

    fn id_from_self(&self) -> (r: ScheduleId) {
        First::id()
    }

    fn runner_kind(&self) -> (r: RunnerKind) {
        RunnerKind::Plain
    }
}

impl ScheduleLabel for PreUpdate {
    open spec fn spec_id(&self) -> ScheduleId {
        pre_update_id()
    }

    open spec fn spec_place(&self) -> SchedulePlace {
        SchedulePlace::After(first_id())
    }

    open spec fn spec_runner(&self) -> RunnerKind {
        RunnerKind::Plain
    }

    fn get_place(&self) -> (r: SchedulePlace) {
        SchedulePlace::After(First::id())
    }

    fn id_from_self(&self) -> (r: ScheduleId) {
        PreUpdate::id()
    }

    fn runner_kind(&self) -> (r: RunnerKind) {
        RunnerKind::Plain
    }
}

impl ScheduleLabel for Update {
    open spec fn spec_id(&self) -> ScheduleId {
        update_id()
    }

    open spec fn spec_place(&self) -> SchedulePlace {
        SchedulePlace::After(pre_update_id())
    }

    open spec fn spec_runner(&self) -> RunnerKind {
        RunnerKind::Plain
    }

    fn get_place(&self) -> (r: SchedulePlace) {
        SchedulePlace::After(PreUpdate::id())
    }

    fn id_from_self(&self) -> (r: ScheduleId) {
        Update::id()
    }

    fn runner_kind(&self) -> (r: RunnerKind) {
        RunnerKind::Plain
    }
}

impl ScheduleLabel for PostUpdate {
    open spec fn spec_id(&self) -> ScheduleId {
        post_update_id()
    }

    open spec fn spec_place(&self) -> SchedulePlace {
        SchedulePlace::After(update_id())
    }

    open spec fn spec_runner(&self) -> RunnerKind {
        RunnerKind::Plain
    }

    fn get_place(&self) -> (r: SchedulePlace) {
        SchedulePlace::After(Update::id())
    }

    fn id_from_self(&self) -> (r: ScheduleId) {
        PostUpdate::id()
    }

    fn runner_kind(&self) -> (r: RunnerKind) {
        RunnerKind::Plain
    }
}

impl ScheduleLabel for CleanupHandles {
    open spec fn spec_id(&self) -> ScheduleId {
        cleanup_handles_id()
    }

    open spec fn spec_place(&self) -> SchedulePlace {
        SchedulePlace::After(post_update_id())
    }

    open spec fn spec_runner(&self) -> RunnerKind {
        RunnerKind::CleanupHandles
    }

    fn get_place(&self) -> (r: SchedulePlace) {
        SchedulePlace::After(PostUpdate::id())
    }

    fn id_from_self(&self) -> (r: ScheduleId) {
        CleanupHandles::id()
    }

    fn runner_kind(&self) -> (r: RunnerKind) {
        RunnerKind::CleanupHandles
    }
}

impl ScheduleLabel for ApplyCommands {
    open spec fn spec_id(&self) -> ScheduleId {
        apply_commands_id()
    }

    open spec fn spec_place(&self) -> SchedulePlace {
        SchedulePlace::After(cleanup_handles_id())
    }

    open spec fn spec_runner(&self) -> RunnerKind {
        RunnerKind::ApplyCommands
    }

    fn get_place(&self) -> (r: SchedulePlace) {
        SchedulePlace::After(CleanupHandles::id())
    }

    fn id_from_self(&self) -> (r: ScheduleId) {
        ApplyCommands::id()
    }

    fn runner_kind(&self) -> (r: RunnerKind) {
        RunnerKind::ApplyCommands
    }
}

impl ScheduleLabel for Last {
    open spec fn spec_id(&self) -> ScheduleId {
        last_id()
    }

    open spec fn spec_place(&self) -> SchedulePlace {
        SchedulePlace::After(apply_commands_id())
    }

    open spec fn spec_runner(&self) -> RunnerKind {
        RunnerKind::Plain
    }

    fn get_place(&self) -> (r: SchedulePlace) {
        SchedulePlace::After(ApplyCommands::id())
    }

    fn id_from_self(&self) -> (r: ScheduleId) {
        Last::id()
    }

    fn runner_kind(&self) -> (r: RunnerKind) {
        RunnerKind::Plain
    }
}

/// Registers the default frame schedules: `First`, `PreUpdate`, `Update`,
/// `PostUpdate`, `CleanupHandles`, `ApplyCommands` and `Last`.
pub struct DefaultSchedulesPlugin;

impl DefaultSchedulesPlugin {
    /// Appends the default frame schedules, in that order, to `schedules`.
    pub fn build<S>(self, schedules: &mut Vec<Schedule<S>>)
        ensures
            final(schedules)@.len() == old(schedules)@.len() + 7,
            forall|i: int|
                0 <= i < old(schedules)@.len() ==> #[trigger] final(schedules)@[i] == old(
                    schedules,
                )@[i],
            final(schedules)@[old(schedules)@.len() + 0int].label == first_id(),
            final(schedules)@[old(schedules)@.len() + 1int].label == pre_update_id(),
            final(schedules)@[old(schedules)@.len() + 2int].label == update_id(),
            final(schedules)@[old(schedules)@.len() + 3int].label == post_update_id(),
            final(schedules)@[old(schedules)@.len() + 4int].label == cleanup_handles_id(),
            final(schedules)@[old(schedules)@.len() + 5int].label == apply_commands_id(),
            final(schedules)@[old(schedules)@.len() + 6int].label == last_id(),
            forall|i: int|
                old(schedules)@.len() <= i < final(schedules)@.len() ==> {
                    &&& #[trigger] final(schedules)@[i].systems@.len() == 0
                    &&& final(schedules)@[i].place == default_place(final(schedules)@[i].label)
                    &&& final(schedules)@[i].runner == default_runner(final(schedules)@[i].label)
                },
    {
        schedules.push(Schedule::new(First));
        schedules.push(Schedule::new(PreUpdate));
        schedules.push(Schedule::new(Update));
        schedules.push(Schedule::new(PostUpdate));
        schedules.push(Schedule::new(CleanupHandles));
        schedules.push(Schedule::new(ApplyCommands));
        schedules.push(Schedule::new(Last));
    }
}

/// The place of each built-in label.
pub open spec fn default_place(label: ScheduleId) -> SchedulePlace {
    if label == first_id() {
        SchedulePlace::After(startup_id())
    } else if label == pre_update_id() {
        SchedulePlace::After(first_id())
    } else if label == update_id() {
        SchedulePlace::After(pre_update_id())
    } else if label == post_update_id() {
        SchedulePlace::After(update_id())
    } else if label == cleanup_handles_id() {
        SchedulePlace::After(post_update_id())
    } else if label == apply_commands_id() {
        SchedulePlace::After(cleanup_handles_id())
    } else if label == last_id() {
        SchedulePlace::After(apply_commands_id())
    } else {
        SchedulePlace::Before(first_id())
    }
}

/// The runner of each built-in label.
pub open spec fn default_runner(label: ScheduleId) -> RunnerKind {
    if label == startup_id() {
        RunnerKind::Startup
    } else if label == cleanup_handles_id() {
        RunnerKind::CleanupHandles
    } else if label == apply_commands_id() {
        RunnerKind::ApplyCommands
    } else {
        RunnerKind::Plain
    }
}


/// The label numbers of the default schedules, in their documented
/// execution order.
pub open spec fn default_labels() -> Seq<ScheduleId> {
    seq![
        startup_id(),
        first_id(),
        pre_update_id(),
        update_id(),
        post_update_id(),
        cleanup_handles_id(),
        apply_commands_id(),
        last_id(),
    ]
}

/// With the start-up schedule and the default schedules registered, each
/// with the place of its label, the only valid order is the documented
/// one: `Startup`, `First`, `PreUpdate`, `Update`, `PostUpdate`,
/// `CleanupHandles`, `ApplyCommands`, `Last`.
pub proof fn lemma_default_order<S>(s: Seq<Schedule<S>>, o: Seq<u64>)
    requires
        s.len() == 8,
        forall|k: int| 0 <= k < 8 ==> (#[trigger] s[k]).label == default_labels()[k] && s[k].place == default_place(s[k].label),
        crate::ordering::is_valid_order(s, startup_id().id, o),
    ensures
        o == seq![1u64, 2, 3, 4, 5, 6, 7, 8],
{
    let st = startup_id().id;
    assert(s[0].label == default_labels()[0]);
    assert(o.contains(s[0].label.id));
    assert(s[1].label == default_labels()[1]);
    assert(o.contains(s[1].label.id));
    assert(s[2].label == default_labels()[2]);
    assert(o.contains(s[2].label.id));
    assert(s[3].label == default_labels()[3]);
    assert(o.contains(s[3].label.id));
    assert(s[4].label == default_labels()[4]);
    assert(o.contains(s[4].label.id));
    assert(s[5].label == default_labels()[5]);
    assert(o.contains(s[5].label.id));
    assert(s[6].label == default_labels()[6]);
    assert(o.contains(s[6].label.id));
    assert(s[7].label == default_labels()[7]);
    assert(o.contains(s[7].label.id));
    assert(crate::ordering::schedule_edge(s, st, 1, 1u64, 2u64));
    assert(crate::ordering::schedule_edge(s, st, 2, 2u64, 3u64));
    assert(crate::ordering::schedule_edge(s, st, 3, 3u64, 4u64));
    assert(crate::ordering::schedule_edge(s, st, 4, 4u64, 5u64));
    assert(crate::ordering::schedule_edge(s, st, 5, 5u64, 6u64));
    assert(crate::ordering::schedule_edge(s, st, 6, 6u64, 7u64));
    assert(crate::ordering::schedule_edge(s, st, 7, 7u64, 8u64));
    let p1 = choose|p: int| 0 <= p < o.len() && o[p] == 1u64;
    let p2 = choose|p: int| 0 <= p < o.len() && o[p] == 2u64;
    let p3 = choose|p: int| 0 <= p < o.len() && o[p] == 3u64;
    let p4 = choose|p: int| 0 <= p < o.len() && o[p] == 4u64;
    let p5 = choose|p: int| 0 <= p < o.len() && o[p] == 5u64;
    let p6 = choose|p: int| 0 <= p < o.len() && o[p] == 6u64;
    let p7 = choose|p: int| 0 <= p < o.len() && o[p] == 7u64;
    let p8 = choose|p: int| 0 <= p < o.len() && o[p] == 8u64;
    assert(o.contains(1u64) && o.contains(2u64) && o.contains(3u64) && o.contains(4u64));
    assert(o.contains(5u64) && o.contains(6u64) && o.contains(7u64) && o.contains(8u64));
    assert(p1 == 0);
    assert(crate::ordering::has_edge(s, st, 1u64, 2u64));
    assert(crate::ordering::has_edge(s, st, 2u64, 3u64));
    assert(crate::ordering::has_edge(s, st, 3u64, 4u64));
    assert(crate::ordering::has_edge(s, st, 4u64, 5u64));
    assert(crate::ordering::has_edge(s, st, 5u64, 6u64));
    assert(crate::ordering::has_edge(s, st, 6u64, 7u64));
    assert(crate::ordering::has_edge(s, st, 7u64, 8u64));
    assert(p1 < p2 && p2 < p3 && p3 < p4 && p4 < p5 && p5 < p6 && p6 < p7 && p7 < p8);
    assert(o =~= seq![1u64, 2, 3, 4, 5, 6, 7, 8]);
}


/// The system that a step runs, if it runs one.
pub open spec fn step_system(step: RunStep) -> Option<usize> {
    match step {
        RunStep::RunSystem(i) => Some(i),
        _ => None,
    }
}

/// Some step of `plan` runs the system at position `i`.
pub open spec fn runs_system(plan: Seq<RunStep>, i: int) -> bool {
    exists|p: int| 0 <= p < plan.len() && #[trigger] step_system(plan[p]) == Some(i as usize)
}

/// Every runner runs each system of its schedule exactly once, in position
/// order: along the plan, the systems run are `0, 1, ..., n - 1`, each
/// system after all systems before it.
pub proof fn lemma_runner_runs_systems_in_order(kind: RunnerKind, n: nat)
    requires
        n <= usize::MAX,
    ensures
        ({
            let plan = runner_plan(kind, n);
            &&& forall|p: int, q: int|
                0 <= p < q < plan.len() && #[trigger] step_system(plan[p]) is Some && #[trigger] step_system(plan[q]) is Some
                    ==> step_system(plan[p])->0 < step_system(plan[q])->0
            &&& forall|p: int| 0 <= p < plan.len() && #[trigger] step_system(plan[p]) is Some ==> step_system(plan[p])->0 < n
            &&& forall|i: int| 0 <= i < n ==> #[trigger] runs_system(plan, i)
        }),
{
    let plan = runner_plan(kind, n);
    match kind {
        RunnerKind::Plain => {
            assert forall|i: int| 0 <= i < n implies #[trigger] runs_system(plan, i) by {
                assert(plan[i] == RunStep::RunSystem(i as usize));
                assert(step_system(plan[i]) == Some(i as usize));
            }
        },
        RunnerKind::Startup => {
            assert forall|p: int, q: int|
                0 <= p < q < plan.len() && #[trigger] step_system(plan[p]) is Some && #[trigger] step_system(plan[q]) is Some
                    implies step_system(plan[p])->0 < step_system(plan[q])->0 by {
                assert(p % 2 == 0);
                assert(q % 2 == 0);
                assert(p / 2 < q / 2);
            }
            assert forall|i: int| 0 <= i < n implies #[trigger] runs_system(plan, i) by {
                assert((2 * i) % 2 == 0);
                assert((2 * i) / 2 == i);
                assert(plan[2 * i] == RunStep::RunSystem(i as usize));
                assert(step_system(plan[2 * i]) == Some(i as usize));
            }
        },
        RunnerKind::CleanupHandles => {
            assert forall|p: int, q: int|
                0 <= p < q < plan.len() && #[trigger] step_system(plan[p]) is Some && #[trigger] step_system(plan[q]) is Some
                    implies step_system(plan[p])->0 < step_system(plan[q])->0 by {
                assert(p != 0 && q != plan.len() - 1);
                assert(plan[p] == RunStep::RunSystem((p - 1) as usize));
                assert(plan[q] == RunStep::RunSystem((q - 1) as usize));
            }
            assert forall|p: int| 0 <= p < plan.len() && #[trigger] step_system(plan[p]) is Some implies step_system(plan[p])->0 < n by {
                assert(p != 0 && p != plan.len() - 1);
                assert(plan[p] == RunStep::RunSystem((p - 1) as usize));
            }
            assert forall|i: int| 0 <= i < n implies #[trigger] runs_system(plan, i) by {
                assert(plan[i + 1] == RunStep::RunSystem(i as usize));
                assert(step_system(plan[i + 1]) == Some(i as usize));
            }
        },
        RunnerKind::ApplyCommands => {
            assert forall|p: int, q: int|
                0 <= p < q < plan.len() && #[trigger] step_system(plan[p]) is Some && #[trigger] step_system(plan[q]) is Some
                    implies step_system(plan[p])->0 < step_system(plan[q])->0 by {
                assert(q < n);
                assert(plan[p] == RunStep::RunSystem(p as usize));
                assert(plan[q] == RunStep::RunSystem(q as usize));
            }
            assert forall|p: int| 0 <= p < plan.len() && #[trigger] step_system(plan[p]) is Some implies step_system(plan[p])->0 < n by {
                assert(p < n);
                assert(plan[p] == RunStep::RunSystem(p as usize));
            }
            assert forall|i: int| 0 <= i < n implies #[trigger] runs_system(plan, i) by {
                assert(plan[i] == RunStep::RunSystem(i as usize));
                assert(step_system(plan[i]) == Some(i as usize));
            }
        },
    }
}

/// Around the systems, each runner applies commands as its schedule needs:
/// the start-up runner applies all commands after every system; the
/// cleanup runner applies the queued commands before and after its
/// systems; the command runner applies the queued commands and then the
/// despawns after its systems; the plain runner applies nothing.
pub proof fn lemma_runner_command_steps(n: nat)
    ensures
        runner_plan(RunnerKind::Plain, n).len() == n,
        forall|p: int| 0 <= p < n ==> #[trigger] step_system(runner_plan(RunnerKind::Plain, n)[p]) is Some,
        runner_plan(RunnerKind::Startup, n).len() == 2 * n,
        forall|i: int|
            0 <= i < n ==> #[trigger] runner_plan(RunnerKind::Startup, n)[2 * i + 1] == RunStep::ApplyAllCommands,
        runner_plan(RunnerKind::CleanupHandles, n).len() == n + 2,
        runner_plan(RunnerKind::CleanupHandles, n)[0] == RunStep::ApplyQueueCommands,
        runner_plan(RunnerKind::CleanupHandles, n).last() == RunStep::ApplyQueueCommands,
        runner_plan(RunnerKind::ApplyCommands, n).len() == n + 2,
        runner_plan(RunnerKind::ApplyCommands, n)[n as int] == RunStep::ApplyQueueCommands,
        runner_plan(RunnerKind::ApplyCommands, n)[n as int + 1] == RunStep::ApplyDespawns,
{
    assert forall|i: int| 0 <= i < n implies #[trigger] runner_plan(RunnerKind::Startup, n)[2 * i + 1]
        == RunStep::ApplyAllCommands by {
        assert((2 * i + 1) % 2 == 1);
    }
}

} // verus!
