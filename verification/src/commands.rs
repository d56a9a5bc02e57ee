//! Deferred world changes: a queue of commands applied in the order they
//! were pushed, and the set of entities whose despawn is pending.
use crate::entity::Entity;
use vstd::prelude::*;

verus! {

/// A pending despawn of `entity`.
pub struct DespawnCommand {
    pub entity: Entity,
}

/// Commands waiting to be applied, oldest first.
pub struct CommandQueue<C> {
    pub(crate) commands: Vec<C>,
}

impl<C> View for CommandQueue<C> {
    type V = Seq<C>;

    closed spec fn view(&self) -> Seq<C> {
        self.commands@
    }
}

impl<C> CommandQueue<C> {
    pub fn new() -> (r: CommandQueue<C>)
        ensures
            r@ == Seq::<C>::empty(),
    {
        CommandQueue { commands: Vec::new() }
    }

    /// Queues `command` behind the ones already queued.
    pub fn push(&mut self, command: C)
        ensures
            final(self)@ == old(self)@.push(command),
    {
        self.commands.push(command);
    }

    pub fn len(&self) -> (r: usize)
        ensures
            r == self@.len(),
    {
        self.commands.len()
    }

    pub fn is_empty(&self) -> (r: bool)
        ensures
            r == (self@.len() == 0),
    {
        self.commands.len() == 0
    }

    /// Hands out every queued command, oldest first, and leaves the queue
    /// empty.
    pub fn take_all(&mut self) -> (r: Vec<C>)
        ensures
            r@ == old(self)@,
            final(self)@ == Seq::<C>::empty(),
    {
        let mut out: Vec<C> = Vec::new();
        std::mem::swap(&mut out, &mut self.commands);
        out
    }
}

/// The registry positions of the entities in `d`, in order.
pub open spec fn despawn_indices(d: Seq<DespawnCommand>) -> Seq<u32> {
    Seq::new(d.len(), |i: int| d[i].entity.index())
}

/// The entities whose despawn is pending; each entity at most once.
pub struct DespawnSet {
    pub(crate) targets: Vec<DespawnCommand>,
}

impl DespawnSet {
    /// The registry positions of the pending targets, in insertion order.
    pub closed spec fn indices(&self) -> Seq<u32> {
        despawn_indices(self.targets@)
    }

    pub open spec fn wf(&self) -> bool {
        self.indices().no_duplicates()
    }

    pub fn new() -> (r: DespawnSet)
        ensures
            r.wf(),
            r.indices() == Seq::<u32>::empty(),
    {
        let r = DespawnSet { targets: Vec::new() };
        assert(r.indices() =~= Seq::<u32>::empty());
        r
    }

    pub fn len(&self) -> (r: usize)
        ensures
            r == self.indices().len(),
    {
        self.targets.len()
    }

    /// Whether a despawn of `entity` is pending.
    pub fn will_despawn(&self, entity: &Entity) -> (r: bool)
        ensures
            r == self.indices().contains(entity.index()),
    {
        let target = entity.registry_idx();
        let mut i: usize = 0;
        while i < self.targets.len()
            invariant
                i <= self.targets@.len(),
                target == entity.index(),
                forall|k: int| 0 <= k < i ==> self.indices()[k] != target,
            decreases self.targets@.len() - i,
        {
            if self.targets[i].entity.registry_idx() == target {
                assert(self.indices()[i as int] == target);
                return true;
            }
            i += 1;
        }
        false
    }

    /// Records a despawn of `entity`; a second despawn of the same entity
    /// is dropped. True when it was recorded.
    pub fn insert(&mut self, entity: Entity) -> (r: bool)
        requires
            old(self).wf(),
        ensures
            final(self).wf(),
            r == !old(self).indices().contains(entity.index()),
            final(self).indices() == if r {
                old(self).indices().push(entity.index())
            } else {
                old(self).indices()
            },
    {
        if self.will_despawn(&entity) {
            return false;
        }
        let ghost idx = entity.index();
        self.targets.push(DespawnCommand { entity });
        assert(self.indices() =~= old(self).indices().push(idx));
        true
    }

    /// The pending targets, in insertion order.
    pub fn despawn_iter(&self) -> (r: &[DespawnCommand])
        ensures
            despawn_indices(r@) == self.indices(),
    {
        self.targets.as_slice()
    }

    /// Hands out every pending target, in insertion order, and leaves the
    /// set empty.
    pub fn take_all(&mut self) -> (r: Vec<DespawnCommand>)
        requires
            old(self).wf(),
        ensures
            final(self).wf(),
            despawn_indices(r@) == old(self).indices(),
            final(self).indices() == Seq::<u32>::empty(),
    {
        let mut out: Vec<DespawnCommand> = Vec::new();
        std::mem::swap(&mut out, &mut self.targets);
        assert(self.indices() =~= Seq::<u32>::empty());
        out
    }
}

/// The handle through which systems queue commands and despawns.
pub struct Commands<'a, C> {
    pub(crate) queue: &'a mut CommandQueue<C>,
    pub(crate) despawns: &'a mut DespawnSet,
}

impl<'a, C> Commands<'a, C> {
    pub closed spec fn queued(&self) -> Seq<C> {
        self.queue@
    }

    pub closed spec fn pending_despawns(&self) -> Seq<u32> {
        self.despawns.indices()
    }

    pub closed spec fn wf(&self) -> bool {
        self.despawns.wf()
    }

    pub fn new(queue: &'a mut CommandQueue<C>, despawns: &'a mut DespawnSet) -> (r: Commands<'a, C>)
        ensures
            r.queued() == old(queue)@,
            r.pending_despawns() == old(despawns).indices(),
            r.wf() == old(despawns).wf(),
    {
        Commands { queue, despawns }
    }

    /// Queues `command`; it is applied with the other queued commands, in
    /// order.
    pub fn push(&mut self, command: C)
        ensures
            final(self).queued() == old(self).queued().push(command),
            final(self).pending_despawns() == old(self).pending_despawns(),
            final(self).wf() == old(self).wf(),
    {
        self.queue.push(command);
    }

    /// Marks `entity` for despawning; nothing happens until despawns are
    /// applied.
    pub fn despawn(&mut self, entity: Entity)
        requires
            old(self).wf(),
        ensures
            final(self).wf(),
            final(self).queued() == old(self).queued(),
            final(self).pending_despawns() == if old(self).pending_despawns().contains(entity.index()) {
                old(self).pending_despawns()
            } else {
                old(self).pending_despawns().push(entity.index())
            },
    {
        self.despawns.insert(entity);
    }

    /// Whether a despawn of `entity` is pending.
    pub fn will_despawn(&self, entity: &Entity) -> (r: bool)
        ensures
            r == self.pending_despawns().contains(entity.index()),
    {
        self.despawns.will_despawn(entity)
    }

    /// The pending despawns, in the order they were made.
    pub fn despawn_iter(&self) -> (r: &[DespawnCommand])
        ensures
            despawn_indices(r@) == self.pending_despawns(),
    {
        self.despawns.despawn_iter()
    }
}

} // verus!
