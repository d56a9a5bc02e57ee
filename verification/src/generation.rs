//! Generation-stamped change detection: every mark carries the generation in
//! which it was written and the system that wrote it, and each reading system
//! decides from its own last-run generation whether it has seen the mark.
use vstd::prelude::*;

verus! {

/// Generations run through `1..=255` and wrap around; `0` means "never
/// marked".
pub struct GenerationRing;

pub open spec fn previous_generation(g: u8) -> u8 {
    if g <= 1 {
        255
    } else {
        (g - 1) as u8
    }
}

impl GenerationRing {
    /// The generation before `g`.
    pub fn previous(g: u8) -> (r: u8)
        ensures
            r == previous_generation(g),
    {
        if g <= 1 {
            255
        } else {
            g - 1
        }
    }

    /// The generation two before `g`: marks this old are stale.
    pub fn stale_threshold(g: u8) -> (r: u8)
        ensures
            r == previous_generation(previous_generation(g)),
    {
        GenerationRing::previous(GenerationRing::previous(g))
    }
}

/// Whether a reading system sees a mark written in generation `mark` by
/// system `author`:
/// - an empty mark is never seen;
/// - a mark of the current generation is seen by systems that run after its
///   author in this frame, unless the reader already ran in this generation;
/// - a mark of the previous generation is seen by systems that did not yet
///   run after it: if the reader ran in the previous generation, only when it
///   ran before the author; otherwise only when the reader last ran two
///   generations ago;
/// - older marks are not seen.
pub open spec fn mark_visible(
    mark: u8,
    author: u32,
    current: u8,
    reader_last: u8,
    previous: u8,
    reader: u32,
) -> bool {
    if mark == 0 {
        false
    } else if mark == current {
        reader_last != current && reader > author
    } else if mark == previous {
        if reader_last == previous {
            reader < author
        } else {
            reader_last == previous_generation(previous_generation(current))
        }
    } else {
        false
    }
}

/// Whether a reading system sees a component change; see [`mark_visible`].
pub fn detect_changed(
    marker_val: u8,
    author_system_id: u32,
    current_generation: u8,
    system_last_generation: u8,
    previous_generation: u8,
    reading_system_id: u32,
) -> (r: bool)
    ensures
        r == mark_visible(
            marker_val,
            author_system_id,
            current_generation,
            system_last_generation,
            previous_generation,
            reading_system_id,
        ),
{
    if marker_val == 0 {
        return false;
    }
    if marker_val == current_generation {
        if system_last_generation == current_generation {
            return false;
        }
        return reading_system_id > author_system_id;
    }
    if marker_val == previous_generation {
        if system_last_generation == previous_generation {
            return reading_system_id < author_system_id;
        }
        let two_generations_ago = GenerationRing::stale_threshold(current_generation);
        return system_last_generation == two_generations_ago;
    }
    false
}

/// Whether a reading system sees an event; the same rule as for changes.
pub fn should_be_read(
    event_gen: u8,
    author_system_id: u32,
    current_generation: u8,
    system_last_generation: u8,
    previous_generation: u8,
    reading_system_id: u32,
) -> (r: bool)
    ensures
        r == mark_visible(
            event_gen,
            author_system_id,
            current_generation,
            system_last_generation,
            previous_generation,
            reading_system_id,
        ),
{
    if event_gen == 0 {
        return false;
    }
    if event_gen == current_generation {
        if system_last_generation == current_generation {
            return false;
        }
        return reading_system_id > author_system_id;
    }
    if event_gen == previous_generation {
        if system_last_generation == previous_generation {
            return reading_system_id < author_system_id;
        }
        let two_generations_ago = GenerationRing::stale_threshold(current_generation);
        return system_last_generation == two_generations_ago;
    }
    false
}

/// An event stamped with the generation and the system that sent it.
pub struct Event<T> {
    pub event: T,
    pub generation: u8,
    pub author_id: u32,
}

impl<T> Event<T> {
    pub fn new(event: T, generation: u8, author_id: u32) -> (r: Event<T>)
        ensures
            r.event == event,
            r.generation == generation,
            r.author_id == author_id,
    {
        Event { event, generation, author_id }
    }
}

/// The events that a reading system sees, in the order they were sent.
pub fn read_visible<'a, T>(
    queue: &'a Vec<Event<T>>,
    current_gen: u8,
    system_last_gen: u8,
    previous_gen: u8,
    reading_system_id: u32,
) -> (r: Vec<&'a T>)
    ensures
        r@.len() == queue@.filter(
            |e: Event<T>|
                mark_visible(
                    e.generation,
                    e.author_id,
                    current_gen,
                    system_last_gen,
                    previous_gen,
                    reading_system_id,
                ),
        ).len(),
        forall|k: int|
            0 <= k < r@.len() ==> *r@[k] == queue@.filter(
                |e: Event<T>|
                    mark_visible(
                        e.generation,
                        e.author_id,
                        current_gen,
                        system_last_gen,
                        previous_gen,
                        reading_system_id,
                    ),
            )[k].event,
{
    let ghost pred = |e: Event<T>|
        mark_visible(
            e.generation,
            e.author_id,
            current_gen,
            system_last_gen,
            previous_gen,
            reading_system_id,
        );
    let mut r: Vec<&'a T> = Vec::new();
    let mut k: usize = 0;
    while k < queue.len()
        invariant
            k <= queue@.len(),
            pred == (|e: Event<T>|
                mark_visible(
                    e.generation,
                    e.author_id,
                    current_gen,
                    system_last_gen,
                    previous_gen,
                    reading_system_id,
                )),
            r@.len() == queue@.subrange(0, k as int).filter(pred).len(),
            forall|j: int|
                0 <= j < r@.len() ==> *r@[j] == queue@.subrange(0, k as int).filter(pred)[j].event,
        decreases queue@.len() - k,
    {
        let e = &queue[k];
        proof {
            assert(queue@.subrange(0, k as int + 1).drop_last() == queue@.subrange(0, k as int));
            reveal(Seq::filter);
        }
        if should_be_read(
            e.generation,
            e.author_id,
            current_gen,
            system_last_gen,
            previous_gen,
            reading_system_id,
        ) {
            r.push(&e.event);
        }
        k += 1;
    }
    assert(queue@.subrange(0, queue@.len() as int) == queue@);
    r
}

/// The generation after `g` on the ring `1..=255`.
pub open spec fn next_generation(g: u8) -> u8 {
    if g >= 255 {
        1
    } else {
        (g + 1) as u8
    }
}

/// The generations form a ring over `1..=255`: stepping forward and then
/// back returns to the start, every step stays on the ring, and two
/// generations that are one step apart are distinct.
pub proof fn lemma_generation_ring(g: u8)
    requires
        1 <= g,
    ensures
        previous_generation(next_generation(g)) == g,
        next_generation(previous_generation(g)) == g,
        1 <= next_generation(g),
        1 <= previous_generation(g),
        next_generation(g) != g,
        previous_generation(g) != g,
        previous_generation(previous_generation(g)) != g,
        previous_generation(previous_generation(g)) != previous_generation(g),
        g == 1 ==> previous_generation(g) == 255,
        g > 1 ==> previous_generation(g) == g - 1,
        g == 255 ==> next_generation(g) == 1,
        g < 255 ==> next_generation(g) == g + 1,
{
}

/// A system that runs once in every generation, and is not the author of a
/// mark, sees the mark exactly once: in the generation it was written if it
/// runs after the author, otherwise in the next one; in the generation after
/// that the mark is no longer seen.
pub proof fn lemma_mark_seen_once(g: u8, author: u32, reader: u32)
    requires
        1 <= g,
        reader != author,
    ensures
        ({
            let g1 = next_generation(g);
            let g2 = next_generation(g1);
            let seen0 = mark_visible(g, author, g, previous_generation(g), previous_generation(g), reader);
            let seen1 = mark_visible(g, author, g1, g, g, reader);
            let seen2 = mark_visible(g, author, g2, g1, g1, reader);
            &&& seen0 != seen1
            &&& !seen2
            &&& previous_generation(g1) == g
        }),
{
}

/// A write of the previous generation is seen by a reader that did not run
/// in the previous generation only when the reader last ran exactly two
/// generations ago; so a reader that never ran (last run `0`), or that ran
/// in the current generation, does not see it.
pub proof fn lemma_previous_mark_needs_recent_reader(mark: u8, author: u32, current: u8, reader_last: u8, reader: u32)
    requires
        1 <= current,
        mark != 0,
        mark == previous_generation(current),
        reader_last != previous_generation(current),
        reader_last != previous_generation(previous_generation(current)),
    ensures
        !mark_visible(mark, author, current, reader_last, previous_generation(current), reader),
{
}

/// A write is seen by a reader at most once: a reader that saw a write in
/// the generation it was made, and then runs in the next generation, does
/// not see it again; neither does one that saw it in the next generation
/// and runs again in the generation after.
pub proof fn lemma_mark_not_seen_twice(g: u8, author: u32, reader: u32, first_last: u8)
    requires
        1 <= g,
    ensures
        mark_visible(g, author, g, first_last, previous_generation(g), reader) ==> !mark_visible(
            g,
            author,
            next_generation(g),
            g,
            g,
            reader,
        ),
        mark_visible(g, author, next_generation(g), first_last, g, reader) ==> !mark_visible(
            g,
            author,
            next_generation(next_generation(g)),
            next_generation(g),
            next_generation(g),
            reader,
        ),
{
}

/// A write of the current generation is seen exactly by the systems that
/// run after its writer and have not run yet in this generation; a write of
/// the previous generation, by a system that ran in the previous generation,
/// exactly when it ran before the writer; nothing is seen of a row never
/// written (generation `0`) or written more than one generation ago.
pub proof fn lemma_mark_visibility_bounds(mark: u8, author: u32, current: u8, reader_last: u8, reader: u32)
    requires
        1 <= current,
    ensures
        mark == current && reader <= author ==> !mark_visible(mark, author, current, reader_last, previous_generation(current), reader),
        mark == current && reader_last == current ==> !mark_visible(mark, author, current, reader_last, previous_generation(current), reader),
        mark == current && reader_last != current && reader > author ==> mark_visible(mark, author, current, reader_last, previous_generation(current), reader),
        mark == previous_generation(current) && reader_last == previous_generation(current) ==> (mark_visible(
            mark,
            author,
            current,
            reader_last,
            previous_generation(current),
            reader,
        ) <==> reader < author),
        mark == previous_generation(current) && reader_last != previous_generation(current) && reader_last
            == previous_generation(previous_generation(current)) ==> mark_visible(
            mark,
            author,
            current,
            reader_last,
            previous_generation(current),
            reader,
        ),
        mark == 0 ==> !mark_visible(mark, author, current, reader_last, previous_generation(current), reader),
        mark != current && mark != previous_generation(current) ==> !mark_visible(
            mark,
            author,
            current,
            reader_last,
            previous_generation(current),
            reader,
        ),
{
}

/// The stamped events of one type.
pub struct EventQueue<T> {
    pub(crate) queue: Vec<Event<T>>,
}

impl<T> EventQueue<T> {
    pub closed spec fn events(&self) -> Seq<Event<T>> {
        self.queue@
    }

    pub fn new() -> (r: EventQueue<T>)
        ensures
            r.events() == Seq::<Event<T>>::empty(),
    {
        EventQueue { queue: Vec::new() }
    }

    /// Sends `event`, stamped with the sender's generation and id.
    pub fn send(&mut self, event: T, generation: u8, system_id: u32)
        ensures
            final(self).events() == old(self).events().push(Event { event, generation, author_id: system_id }),
    {
        self.queue.push(Event::new(event, generation, system_id));
    }

    /// The events that the reading system sees, in the order they were sent.
    pub fn read(&self, current_gen: u8, system_last_gen: u8, previous_gen: u8, reading_system_id: u32) -> (r: Vec<&T>)
        ensures
            r@.len() == self.events().filter(
                |e: Event<T>|
                    mark_visible(
                        e.generation,
                        e.author_id,
                        current_gen,
                        system_last_gen,
                        previous_gen,
                        reading_system_id,
                    ),
            ).len(),
            forall|k: int|
                0 <= k < r@.len() ==> *r@[k] == self.events().filter(
                    |e: Event<T>|
                        mark_visible(
                            e.generation,
                            e.author_id,
                            current_gen,
                            system_last_gen,
                            previous_gen,
                            reading_system_id,
                        ),
                )[k].event,
    {
        read_visible(&self.queue, current_gen, system_last_gen, previous_gen, reading_system_id)
    }

    /// End of frame in generation `current`: drops the events two
    /// generations old, keeping the order of the others.
    pub fn clear_stale(&mut self, current: u8)
        ensures
            final(self).events() == old(self).events().filter(
                |e: Event<T>| e.generation != previous_generation(previous_generation(current)),
            ),
    {
        let stale = GenerationRing::stale_threshold(current);
        let ghost pred = |e: Event<T>| e.generation != previous_generation(previous_generation(current));
        let mut old_queue: Vec<Event<T>> = Vec::new();
        std::mem::swap(&mut old_queue, &mut self.queue);
        let ghost start = old_queue@;
        let mut kept: Vec<Event<T>> = Vec::new();
        let mut k: usize = 0;
        let n = old_queue.len();
        while old_queue.len() > 0
            invariant
                stale == previous_generation(previous_generation(current)),
                pred == (|e: Event<T>| e.generation != previous_generation(previous_generation(current))),
                k <= n,
                n == start.len(),
                old_queue@ == start.subrange(k as int, n as int),
                kept@ == start.subrange(0, k as int).filter(pred),
            decreases old_queue@.len(),
        {
            let e = old_queue.remove(0);
            proof {
                assert(e == start[k as int]);
                assert(start.subrange(0, k as int + 1).drop_last() == start.subrange(0, k as int));
                assert(old_queue@ =~= start.subrange(k as int + 1, n as int));
                reveal(Seq::filter);
            }
            if e.generation != stale {
                kept.push(e);
            }
            k += 1;
        }
        assert(start.subrange(0, n as int) == start);
        self.queue = kept;
    }
}

/// Clearing at the end of a frame drops only events that no system would
/// see in the next frame.
pub proof fn lemma_cleared_events_unseen(g: u8, author: u32, reader_last: u8, reader: u32)
    requires
        1 <= g,
    ensures
        !mark_visible(
            previous_generation(previous_generation(g)),
            author,
            next_generation(g),
            reader_last,
            g,
            reader,
        ),
{
}

} // verus!
