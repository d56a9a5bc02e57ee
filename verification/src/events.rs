//! Double-buffered events: what is sent during a frame is read during the
//! next frame, by every reader, and then dropped.
use crate::validation::ComponentId;
use vstd::prelude::*;

verus! {

/// The two queues of one event type.
pub struct EventBuffer<T> {
    pub(crate) read_queue: Vec<T>,
    pub(crate) writer_queue: Vec<T>,
}

impl<T> EventBuffer<T> {
    /// The events that readers see this frame.
    pub closed spec fn readable(&self) -> Seq<T> {
        self.read_queue@
    }

    /// The events sent so far this frame.
    pub closed spec fn pending(&self) -> Seq<T> {
        self.writer_queue@
    }

    /// A buffer with no events.
    pub fn new() -> (r: EventBuffer<T>)
        ensures
            r.readable() == Seq::<T>::empty(),
            r.pending() == Seq::<T>::empty(),
    {
        EventBuffer { read_queue: Vec::new(), writer_queue: Vec::new() }
    }

    /// Sends one event; readers see it next frame.
    pub fn send(&mut self, event: T)
        ensures
            final(self).readable() == old(self).readable(),
            final(self).pending() == old(self).pending().push(event),
    {
        self.writer_queue.push(event);
    }

    /// Sends several events in their order.
    pub fn send_batch(&mut self, events: Vec<T>)
        ensures
            final(self).readable() == old(self).readable(),
            final(self).pending() == old(self).pending() + events@,
    {
        let mut events = events;
        self.writer_queue.append(&mut events);
    }

    /// The events readers see this frame, in the order they were sent.
    pub fn read(&self) -> (r: &[T])
        ensures
            r@ == self.readable(),
    {
        self.read_queue.as_slice()
    }

    /// End of frame: the events sent this frame become the readable ones
    /// and the readable ones are dropped.
    pub fn clear_events(&mut self)
        ensures
            final(self).readable() == old(self).pending(),
            final(self).pending() == Seq::<T>::empty(),
    {
        self.read_queue.clear();
        std::mem::swap(&mut self.read_queue, &mut self.writer_queue);
    }
}

/// Sends into one event buffer.
pub struct EventWriter<'a, T> {
    pub(crate) buffer: &'a mut EventBuffer<T>,
}

impl<'a, T> EventWriter<'a, T> {
    pub closed spec fn target(&self) -> EventBuffer<T> {
        *self.buffer
    }

    pub fn new(buffer: &'a mut EventBuffer<T>) -> (r: EventWriter<'a, T>)
        ensures
            r.target() == *old(buffer),
    {
        EventWriter { buffer }
    }

    pub fn send(&mut self, event: T)
        ensures
            final(self).target().readable() == old(self).target().readable(),
            final(self).target().pending() == old(self).target().pending().push(event),
    {
        self.buffer.send(event);
    }

    pub fn send_batch(&mut self, events: Vec<T>)
        ensures
            final(self).target().readable() == old(self).target().readable(),
            final(self).target().pending() == old(self).target().pending() + events@,
    {
        self.buffer.send_batch(events);
    }
}

/// Reads one event buffer.
pub struct EventReader<'a, T> {
    pub(crate) buffer: &'a EventBuffer<T>,
}

impl<'a, T> EventReader<'a, T> {
    pub closed spec fn source(&self) -> EventBuffer<T> {
        *self.buffer
    }

    pub fn new(buffer: &'a EventBuffer<T>) -> (r: EventReader<'a, T>)
        ensures
            r.source() == *buffer,
    {
        EventReader { buffer }
    }

    /// The events sent during the previous frame.
    pub fn iter(&self) -> (r: &[T])
        ensures
            r@ == self.source().readable(),
    {
        self.buffer.read()
    }
}

/// The two queues after a frame in which `sent` was sent, once the frame has
/// ended.
pub open spec fn after_event_frame<T>(readable: Seq<T>, pending: Seq<T>, sent: Seq<T>) -> (
    Seq<T>,
    Seq<T>,
) {
    (pending + sent, Seq::empty())
}

/// Starting from a frame in which nothing has been sent yet: what is sent
/// during a frame is not readable during that frame, is exactly what is
/// readable during the next frame, and is no longer readable in the frame
/// after, where only what the next frame sent is readable.
pub proof fn lemma_event_visible_for_one_frame<T>(readable: Seq<T>, sent: Seq<T>, sent_next: Seq<T>)
    ensures
        after_event_frame(readable, Seq::<T>::empty(), sent).0 == sent,
        after_event_frame(readable, Seq::<T>::empty(), sent).1 == Seq::<T>::empty(),
        after_event_frame(sent, Seq::<T>::empty(), sent_next).0 == sent_next,
{
    assert(Seq::<T>::empty() + sent =~= sent);
    assert(Seq::<T>::empty() + sent_next =~= sent_next);
}

/// The event types whose buffers are cleared at the end of every frame.
pub struct TrackedEvents {
    pub(crate) entries: Vec<(ComponentId, ComponentId)>,
}

impl View for TrackedEvents {
    type V = Seq<(ComponentId, ComponentId)>;

    closed spec fn view(&self) -> Seq<(ComponentId, ComponentId)> {
        self.entries@
    }
}

impl TrackedEvents {
    pub fn new() -> (r: TrackedEvents)
        ensures
            r@ == Seq::<(ComponentId, ComponentId)>::empty(),
    {
        TrackedEvents { entries: Vec::new() }
    }

    /// Registers the event type `comp_id`, whose buffer is stored under
    /// `event_id`, unless it is registered already.
    pub fn register_event(&mut self, comp_id: ComponentId, event_id: ComponentId)
        ensures
            final(self)@ == if exists|i: int| 0 <= i < old(self)@.len() && (#[trigger] old(self)@[i]).0 == comp_id {
                old(self)@
            } else {
                old(self)@.push((comp_id, event_id))
            },
    {
        let mut i: usize = 0;
        while i < self.entries.len()
            invariant
                i <= self@.len(),
                forall|k: int| 0 <= k < i ==> self@[k].0 != comp_id,
            decreases self@.len() - i,
        {
            if self.entries[i].0 == comp_id {
                assert(self@[i as int].0 == comp_id);
                return;
            }
            i += 1;
        }
        self.entries.push((comp_id, event_id));
    }

    pub fn len(&self) -> (r: usize)
        ensures
            r == self@.len(),
    {
        self.entries.len()
    }

    /// The buffer number of the entry at position `i`.
    pub fn event_id(&self, i: usize) -> (r: ComponentId)
        requires
            i < self@.len(),
        ensures
            r == self@[i as int].1,
    {
        self.entries[i].1
    }
}

} // verus!
