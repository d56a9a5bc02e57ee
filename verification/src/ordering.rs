//! Arranging the registered schedules into one execution order that respects
//! every `Before`/`After` constraint, with `Startup` as the root.
use crate::schedule::{Schedule, ScheduleId, SchedulePlace};
use vstd::prelude::*;

verus! {

/// Why the registered schedules cannot be arranged.
#[derive(Debug)]
pub enum ScheduleError {
    /// Two schedules share a label; the one registered later is named.
    DuplicateSchedule(ScheduleId),
    /// No schedule carries the root label.
    MissingStartup,
    /// A schedule asks to run before the root.
    BeforeStartup(ScheduleId),
    /// A schedule is placed relative to a label that was never registered.
    MissingTarget(ScheduleId),
    /// The constraints form a cycle; the schedules that could not be placed.
    CircularDependency(Vec<ScheduleId>),
}

/// Every label appears once.
pub open spec fn ids_unique<S>(s: Seq<Schedule<S>>) -> bool {
    forall|i: int, j: int| 0 <= i < j < s.len() ==> s[i].label.id != s[j].label.id
}

/// Some schedule carries the label number `id`.
pub open spec fn has_id<S>(s: Seq<Schedule<S>>, id: u64) -> bool {
    exists|i: int| 0 <= i < s.len() && s[i].label.id == id
}

/// `j` is the first position whose label already appeared before it.
pub open spec fn is_first_duplicate<S>(s: Seq<Schedule<S>>, j: int) -> bool {
    &&& 0 <= j < s.len()
    &&& exists|i: int| 0 <= i < j && s[i].label.id == s[j].label.id
    &&& forall|i2: int, j2: int| 0 <= i2 < j2 < j ==> s[i2].label.id != s[j2].label.id
}

/// The placement error of the schedule at position `i`, if it has one.
pub open spec fn placement_error<S>(s: Seq<Schedule<S>>, startup: u64, i: int) -> Option<
    ScheduleError,
> {
    if s[i].label.id == startup {
        None
    } else {
        match s[i].place {
            SchedulePlace::Before(t) => if t.id == startup {
                Some(ScheduleError::BeforeStartup(s[i].label))
            } else if !has_id(s, t.id) {
                Some(ScheduleError::MissingTarget(s[i].label))
            } else {
                None
            },
            SchedulePlace::After(t) => if !has_id(s, t.id) {
                Some(ScheduleError::MissingTarget(s[i].label))
            } else {
                None
            },
        }
    }
}

/// `i` is the first position whose schedule is misplaced.
pub open spec fn is_first_placement_error<S>(s: Seq<Schedule<S>>, startup: u64, i: int) -> bool {
    &&& 0 <= i < s.len()
    &&& placement_error(s, startup, i).is_some()
    &&& forall|k: int| 0 <= k < i ==> placement_error(s, startup, k).is_none()
}

pub open spec fn no_placement_errors<S>(s: Seq<Schedule<S>>, startup: u64) -> bool {
    forall|i: int| 0 <= i < s.len() ==> placement_error(s, startup, i).is_none()
}

/// The schedule at position `i` asks that label `x` run before label `y`.
pub open spec fn schedule_edge<S>(s: Seq<Schedule<S>>, startup: u64, i: int, x: u64, y: u64) -> bool {
    &&& s[i].label.id != startup
    &&& match s[i].place {
        SchedulePlace::Before(t) => x == s[i].label.id && y == t.id,
        SchedulePlace::After(t) => x == t.id && y == s[i].label.id,
    }
}

/// Some schedule asks that label `x` run before label `y`.
pub open spec fn has_edge<S>(s: Seq<Schedule<S>>, startup: u64, x: u64, y: u64) -> bool {
    exists|i: int| 0 <= i < s.len() && #[trigger] schedule_edge(s, startup, i, x, y)
}

/// `o` lists every registered label once, starts with the root and puts each
/// label after every label that must run before it.
pub open spec fn is_valid_order<S>(s: Seq<Schedule<S>>, startup: u64, o: Seq<u64>) -> bool {
    &&& o.len() == s.len()
    &&& o.no_duplicates()
    &&& forall|k: int| 0 <= k < o.len() ==> #[trigger] has_id(s, o[k])
    &&& forall|i: int| 0 <= i < s.len() ==> #[trigger] o.contains(s[i].label.id)
    &&& o.len() > 0 && o[0] == startup
    &&& forall|a: int, b: int|
        0 <= a < o.len() && 0 <= b < o.len() && #[trigger] has_edge(s, startup, o[a], o[b]) ==> a
            < b
}

/// The label numbers of a sequence of schedules.
pub open spec fn label_ids<S>(s: Seq<Schedule<S>>) -> Seq<u64> {
    Seq::new(s.len(), |k: int| s[k].label.id)
}

// Number of edges among the first `j` that end in `v` and start at a node
// not yet placed.
spec fn in_count(edges: Seq<(usize, usize)>, placed: Seq<bool>, v: usize, j: int) -> nat
    decreases j,
{
    if j <= 0 {
        0
    } else {
        in_count(edges, placed, v, j - 1) + if edges[j - 1].1 == v && !placed[edges[j
            - 1].0 as int] {
            1nat
        } else {
            0nat
        }
    }
}

// Number of edges among the first `j` equal to `(u, v)`.
spec fn pair_count(edges: Seq<(usize, usize)>, u: usize, v: usize, j: int) -> nat
    decreases j,
{
    if j <= 0 {
        0
    } else {
        pair_count(edges, u, v, j - 1) + if edges[j - 1] == (u, v) {
            1nat
        } else {
            0nat
        }
    }
}

spec fn unplaced_count(placed: Seq<bool>, j: int) -> nat
    decreases j,
{
    if j <= 0 {
        0
    } else {
        unplaced_count(placed, j - 1) + if !placed[j - 1] {
            1nat
        } else {
            0nat
        }
    }
}

proof fn lemma_in_count_zero(edges: Seq<(usize, usize)>, placed: Seq<bool>, v: usize, j: int)
    requires
        0 <= j <= edges.len(),
        in_count(edges, placed, v, j) == 0,
    ensures
        forall|k: int| 0 <= k < j && edges[k].1 == v ==> placed[edges[k].0 as int],
    decreases j,
{
    if j > 0 {
        lemma_in_count_zero(edges, placed, v, j - 1);
    }
}

proof fn lemma_in_count_witness(edges: Seq<(usize, usize)>, placed: Seq<bool>, v: usize, j: int)
    requires
        0 <= j <= edges.len(),
        in_count(edges, placed, v, j) > 0,
    ensures
        exists|k: int| 0 <= k < j && edges[k].1 == v && !placed[edges[k].0 as int],
    decreases j,
{
    if j > 0 {
        if in_count(edges, placed, v, j - 1) > 0 {
            lemma_in_count_witness(edges, placed, v, j - 1);
        } else {
            assert(edges[j - 1].1 == v && !placed[edges[j - 1].0 as int]);
        }
    }
}

proof fn lemma_in_count_bound(edges: Seq<(usize, usize)>, placed: Seq<bool>, v: usize, j: int)
    requires
        0 <= j,
    ensures
        in_count(edges, placed, v, j) <= j,
    decreases j,
{
    if j > 0 {
        lemma_in_count_bound(edges, placed, v, j - 1);
    }
}

proof fn lemma_in_count_place(
    edges: Seq<(usize, usize)>,
    placed: Seq<bool>,
    u: usize,
    v: usize,
    j: int,
)
    requires
        0 <= j <= edges.len(),
        u < placed.len(),
        !placed[u as int],
        forall|k: int| 0 <= k < edges.len() ==> (edges[k].0 as int) < placed.len(),
    ensures
        in_count(edges, placed, v, j) == in_count(edges, placed.update(u as int, true), v, j)
            + pair_count(edges, u, v, j),
        pair_count(edges, u, v, j) <= in_count(edges, placed, v, j),
    decreases j,
{
    if j > 0 {
        lemma_in_count_place(edges, placed, u, v, j - 1);
    }
}

proof fn lemma_pair_count_mono(edges: Seq<(usize, usize)>, u: usize, v: usize, j: int, m: int)
    requires
        0 <= j <= m,
    ensures
        pair_count(edges, u, v, j) <= pair_count(edges, u, v, m),
    decreases m - j,
{
    if j < m {
        lemma_pair_count_mono(edges, u, v, j, m - 1);
    }
}

proof fn lemma_unplaced_place(placed: Seq<bool>, u: int, j: int)
    requires
        0 <= u < placed.len(),
        0 <= j <= placed.len(),
        !placed[u],
    ensures
        unplaced_count(placed.update(u, true), j) + (if u < j {
            1nat
        } else {
            0nat
        }) == unplaced_count(placed, j),
    decreases j,
{
    if j > 0 {
        lemma_unplaced_place(placed, u, j - 1);
    }
}

proof fn lemma_unplaced_zero(placed: Seq<bool>, j: int)
    requires
        0 <= j <= placed.len(),
        unplaced_count(placed, j) == 0,
    ensures
        forall|x: int| 0 <= x < j ==> placed[x],
    decreases j,
{
    if j > 0 {
        lemma_unplaced_zero(placed, j - 1);
    }
}

proof fn lemma_unplaced_all_false(n: int)
    requires
        0 <= n,
    ensures
        unplaced_count(Seq::new(n as nat, |x: int| false), n) == n,
    decreases n,
{
    if n > 0 {
        let a = Seq::new(n as nat, |x: int| false);
        let b = Seq::new((n - 1) as nat, |x: int| false);
        lemma_unplaced_all_false(n - 1);
        lemma_unplaced_prefix(a, b, n - 1);
    }
}

proof fn lemma_unplaced_prefix(a: Seq<bool>, b: Seq<bool>, j: int)
    requires
        0 <= j <= a.len(),
        j <= b.len(),
        forall|x: int| 0 <= x < j ==> a[x] == b[x],
    ensures
        unplaced_count(a, j) == unplaced_count(b, j),
    decreases j,
{
    if j > 0 {
        lemma_unplaced_prefix(a, b, j - 1);
    }
}

// The position of the schedule carrying label number `id`.
fn find_schedule<S>(schedules: &Vec<Schedule<S>>, id: u64) -> (r: Option<usize>)
    ensures
        match r {
            Some(k) => k < schedules@.len() && schedules@[k as int].label.id == id,
            None => !has_id(schedules@, id),
        },
{
    let mut k: usize = 0;
    while k < schedules.len()
        invariant
            k <= schedules@.len(),
            forall|i: int| 0 <= i < k ==> schedules@[i].label.id != id,
        decreases schedules@.len() - k,
    {
        if schedules[k].label.id == id {
            return Some(k);
        }
        k += 1;
    }
    None
}

// Adds an edge unless it is already present.
fn push_edge(edges: &mut Vec<(usize, usize)>, e: (usize, usize))
    ensures
        forall|k: int| 0 <= k < old(edges)@.len() ==> final(edges)@[k] == old(edges)@[k],
        old(edges)@.len() <= final(edges)@.len() <= old(edges)@.len() + 1,
        final(edges)@.len() == old(edges)@.len() + 1 ==> final(edges)@.last() == e,
        exists|k: int| 0 <= k < final(edges)@.len() && final(edges)@[k] == e,
{
    let mut k: usize = 0;
    while k < edges.len()
        invariant
            k <= edges@.len(),
            forall|i: int| 0 <= i < k ==> edges@[i] != e,
        decreases edges@.len() - k,
    {
        if edges[k].0 == e.0 && edges[k].1 == e.1 {
            return;
        }
        k += 1;
    }
    edges.push(e);
    assert(edges@[edges@.len() - 1] == e);
}


// Every position's label is matched by an edge list over positions.
spec fn edges_match<S>(s: Seq<Schedule<S>>, startup: u64, edges: Seq<(usize, usize)>) -> bool {
    &&& forall|k: int|
        0 <= k < edges.len() ==> {
            &&& (edges[k].0 as int) < s.len()
            &&& (edges[k].1 as int) < s.len()
            &&& has_edge(s, startup, s[edges[k].0 as int].label.id, s[edges[k].1 as int].label.id)
            &&& s[edges[k].1 as int].label.id != startup
        }
    &&& forall|i: int, x: u64, y: u64|
        0 <= i < s.len() && #[trigger] schedule_edge(s, startup, i, x, y) ==> exists|k: int|
            0 <= k < edges.len() && s[edges[k].0 as int].label.id == x && s[edges[k].1 as int].label.id
                == y
}

// Checks every placement and lists the constraints as edges between positions.
fn collect_edges<S>(schedules: &Vec<Schedule<S>>, startup: u64) -> (r: Result<
    Vec<(usize, usize)>,
    ScheduleError,
>)
    requires
        ids_unique(schedules@),
    ensures
        match r {
            Ok(edges) => no_placement_errors(schedules@, startup) && edges_match(
                schedules@,
                startup,
                edges@,
            ),
            Err(e) => exists|i: int|
                is_first_placement_error(schedules@, startup, i) && placement_error(
                    schedules@,
                    startup,
                    i,
                ) == Some(e),
        },
{
    let ghost s = schedules@;
    let n = schedules.len();
    let mut edges: Vec<(usize, usize)> = Vec::new();
    let mut i: usize = 0;
    while i < n
        invariant
            n == s.len(),
            s == schedules@,
            i <= n,
            forall|k: int| 0 <= k < i ==> placement_error(s, startup, k).is_none(),
            forall|k: int|
                0 <= k < edges@.len() ==> {
                    &&& (edges@[k].0 as int) < s.len()
                    &&& (edges@[k].1 as int) < s.len()
                    &&& has_edge(
                        s,
                        startup,
                        s[edges@[k].0 as int].label.id,
                        s[edges@[k].1 as int].label.id,
                    )
                    &&& s[edges@[k].1 as int].label.id != startup
                },
            forall|i2: int, x: u64, y: u64|
                0 <= i2 < i && #[trigger] schedule_edge(s, startup, i2, x, y) ==> exists|k: int|
                    0 <= k < edges@.len() && s[edges@[k].0 as int].label.id == x && s[edges@[
                        k
                    ].1 as int].label.id == y,
        decreases n - i,
    {
        let ghost old_edges = edges@;
        let own = schedules[i].label;
        if own.id != startup {
            match schedules[i].place {
                SchedulePlace::Before(t) => {
                    if t.id == startup {
                        assert(is_first_placement_error(s, startup, i as int));
                        return Err(ScheduleError::BeforeStartup(own));
                    }
                    match find_schedule(schedules, t.id) {
                        None => {
                            assert(is_first_placement_error(s, startup, i as int));
                            return Err(ScheduleError::MissingTarget(own));
                        },
                        Some(b) => {
                            assert(schedule_edge(s, startup, i as int, own.id, t.id));
                            push_edge(&mut edges, (i, b));
                        },
                    }
                },
                SchedulePlace::After(t) => {
                    match find_schedule(schedules, t.id) {
                        None => {
                            assert(is_first_placement_error(s, startup, i as int));
                            return Err(ScheduleError::MissingTarget(own));
                        },
                        Some(a) => {
                            assert(schedule_edge(s, startup, i as int, t.id, own.id));
                            push_edge(&mut edges, (a, i));
                        },
                    }
                },
            }
        }
        assert forall|i2: int, x: u64, y: u64|
            0 <= i2 < i + 1 && #[trigger] schedule_edge(s, startup, i2, x, y) implies exists|k: int|
                0 <= k < edges@.len() && s[edges@[k].0 as int].label.id == x && s[edges@[
                    k
                ].1 as int].label.id == y by {
            if i2 < i {
                let k0 = choose|k: int|
                    0 <= k < old_edges.len() && s[old_edges[k].0 as int].label.id == x && s[old_edges[
                        k
                    ].1 as int].label.id == y;
                assert(edges@[k0] == old_edges[k0]);
            }
        }
        i += 1;
    }
    Ok(edges)
}

// How many edges end in each position.
fn initial_degrees(edges: &Vec<(usize, usize)>, n: usize) -> (deg: Vec<usize>)
    requires
        forall|k: int| 0 <= k < edges@.len() ==> (edges@[k].1 as int) < n && (edges@[k].0 as int) < n,
    ensures
        deg@.len() == n,
        forall|v: int|
            0 <= v < n ==> deg@[v] == in_count(
                edges@,
                Seq::new(n as nat, |x: int| false),
                v as usize,
                edges@.len() as int,
            ),
{
    let ghost none = Seq::new(n as nat, |x: int| false);
    let mut deg: Vec<usize> = Vec::new();
    let mut v: usize = 0;
    while v < n
        invariant
            v <= n,
            deg@.len() == v,
            forall|x: int| 0 <= x < v ==> deg@[x] == 0,
        decreases n - v,
    {
        deg.push(0);
        v += 1;
    }
    let mut k: usize = 0;
    while k < edges.len()
        invariant
            k <= edges@.len(),
            deg@.len() == n,
            none == Seq::new(n as nat, |x: int| false),
            forall|j: int| 0 <= j < edges@.len() ==> (edges@[j].1 as int) < n && (edges@[j].0 as int) < n,
            forall|x: int| 0 <= x < n ==> deg@[x] == in_count(edges@, none, x as usize, k as int),
        decreases edges@.len() - k,
    {
        let t = edges[k].1;
        proof {
            lemma_in_count_bound(edges@, none, t, k as int);
        }
        deg[t] = deg[t] + 1;
        k += 1;
    }
    deg
}


// The state of the arrangement: what is placed, in which order, and what is
// waiting.
spec fn sorting_state(
    edges: Seq<(usize, usize)>,
    n: int,
    deg: Seq<usize>,
    placed: Seq<bool>,
    sorted: Seq<usize>,
) -> bool {
    &&& deg.len() == n
    &&& placed.len() == n
    &&& forall|k: int|
        0 <= k < edges.len() ==> (edges[k].0 as int) < n && (edges[k].1 as int) < n
    &&& forall|v: int|
        0 <= v < n ==> deg[v] == in_count(edges, placed, v as usize, edges.len() as int)
    &&& sorted.no_duplicates()
    &&& forall|t: int| 0 <= t < sorted.len() ==> (sorted[t] as int) < n
    &&& forall|x: int| 0 <= x < n ==> (placed[x] <==> sorted.contains(x as usize))
    &&& sorted.len() + unplaced_count(placed, n) == n
    &&& forall|k: int| 0 <= k < edges.len() && placed[edges[k].1 as int] ==> placed[edges[k].0 as int]
    &&& forall|a: int, b: int, k: int|
        0 <= a < sorted.len() && 0 <= b < sorted.len() && 0 <= k < edges.len() && edges[k] == (
            sorted[b],
            sorted[a],
        ) ==> b < a
}

// Places `u`, whose incoming edges all start at placed positions, and
// lowers the in-degrees of its successors; `on_zero` says whether successors
// that reach zero join the queue.
fn place_position(
    edges: &Vec<(usize, usize)>,
    n: usize,
    u: usize,
    deg: &mut Vec<usize>,
    placed: &mut Vec<bool>,
    sorted: &mut Vec<usize>,
    queue: &mut Vec<usize>,
    head: usize,
    on_zero: bool,
)
    requires
        sorting_state(edges@, n as int, old(deg)@, old(placed)@, old(sorted)@),
        u < n,
        !old(placed)@[u as int],
        old(deg)@[u as int] == 0,
        head <= old(queue)@.len(),
        !old(queue)@.subrange(head as int, old(queue)@.len() as int).contains(u),
        old(queue)@.no_duplicates(),
        forall|t: int| 0 <= t < old(queue)@.len() ==> (old(queue)@[t] as int) < n,
        forall|t: int|
            0 <= t < head ==> old(placed)@[old(queue)@[t] as int] || old(queue)@[t] == u,
        forall|t: int| head <= t < old(queue)@.len() ==> !old(placed)@[old(queue)@[t] as int],
        on_zero ==> forall|x: int|
            0 <= x < n && !old(placed)@[x] && x != u ==> (old(queue)@.subrange(
                head as int,
                old(queue)@.len() as int,
            ).contains(x as usize) <==> old(deg)@[x] == 0),
        !on_zero ==> old(queue)@.len() == 0 && head == 0,
    ensures
        sorting_state(edges@, n as int, final(deg)@, final(placed)@, final(sorted)@),
        final(placed)@ == old(placed)@.update(u as int, true),
        final(sorted)@ == old(sorted)@.push(u),
        final(queue)@.len() >= old(queue)@.len(),
        forall|t: int| 0 <= t < old(queue)@.len() ==> final(queue)@[t] == old(queue)@[t],
        final(queue)@.no_duplicates(),
        forall|t: int| 0 <= t < final(queue)@.len() ==> (final(queue)@[t] as int) < n,
        forall|t: int| head <= t < final(queue)@.len() ==> !final(placed)@[final(queue)@[t] as int],
        on_zero ==> forall|x: int|
            0 <= x < n && !final(placed)@[x] ==> (final(queue)@.subrange(
                head as int,
                final(queue)@.len() as int,
            ).contains(x as usize) <==> final(deg)@[x] == 0),
        !on_zero ==> final(queue)@.len() == 0,
{
    let ghost old_placed = placed@;
    let ghost m = edges@.len() as int;
    proof {
        lemma_in_count_zero(edges@, old_placed, u, m);
        lemma_unplaced_place(old_placed, u as int, n as int);
    }
    sorted.push(u);
    placed[u] = true;
    let ghost new_placed = placed@;
    proof {
        assert forall|v: int| 0 <= v < n implies #[trigger] in_count(
            edges@,
            old_placed,
            v as usize,
            m,
        ) == in_count(edges@, new_placed, v as usize, m) + pair_count(edges@, u, v as usize, m)
            && pair_count(edges@, u, v as usize, m) <= in_count(edges@, old_placed, v as usize, m) by {
            lemma_in_count_place(edges@, old_placed, u, v as usize, m);
        }
        assert forall|x: int| 0 <= x < n implies (new_placed[x] <==> sorted@.contains(
            x as usize,
        )) by {
            if x == u {
                assert(sorted@[sorted@.len() - 1] == u);
            } else if old_placed[x] {
                let t = choose|t: int| 0 <= t < old(sorted)@.len() && old(sorted)@[t] == x as usize;
                assert(sorted@[t] == x as usize);
            } else {
                if sorted@.contains(x as usize) {
                    let t = choose|t: int| 0 <= t < sorted@.len() && sorted@[t] == x as usize;
                    if t < old(sorted)@.len() {
                        assert(old(sorted)@[t] == x as usize);
                    }
                }
            }
        }
        assert(!old(sorted)@.contains(u));
        assert forall|t: int| head <= t < queue@.len() implies queue@[t] != u by {
            assert(queue@.subrange(head as int, queue@.len() as int)[t - head] == queue@[t]);
        }
    }
    let mut k: usize = 0;
    while k < edges.len()
        invariant
            0 <= k <= edges@.len(),
            m == edges@.len(),
            u < n,
            placed@ == new_placed,
            new_placed == old_placed.update(u as int, true),
            old_placed.len() == n,
            in_count(edges@, old_placed, u, m) == 0,
            !old_placed[u as int],
            deg@.len() == n,
            forall|j: int|
                0 <= j < edges@.len() ==> (edges@[j].0 as int) < n && (edges@[j].1 as int) < n,
            forall|j: int| 0 <= j < edges@.len() && old_placed[edges@[j].1 as int] ==> old_placed[edges@[j].0 as int],
            forall|v: int|
                0 <= v < n ==> #[trigger] in_count(edges@, old_placed, v as usize, m) == in_count(
                    edges@,
                    new_placed,
                    v as usize,
                    m,
                ) + pair_count(edges@, u, v as usize, m) && pair_count(edges@, u, v as usize, m)
                    <= in_count(edges@, old_placed, v as usize, m),
            forall|v: int|
                0 <= v < n ==> deg@[v] + pair_count(edges@, u, v as usize, k as int) == in_count(
                    edges@,
                    old_placed,
                    v as usize,
                    m,
                ),
            head <= old(queue)@.len(),
            queue@.len() >= old(queue)@.len(),
            forall|t: int| 0 <= t < old(queue)@.len() ==> queue@[t] == old(queue)@[t],
            queue@.no_duplicates(),
            forall|t: int| 0 <= t < queue@.len() ==> (queue@[t] as int) < n,
            forall|t: int| 0 <= t < head ==> old_placed[queue@[t] as int] || queue@[t] == u,
            forall|t: int| head <= t < queue@.len() ==> !new_placed[queue@[t] as int],
            on_zero ==> forall|x: int|
                0 <= x < n && !new_placed[x] ==> (queue@.subrange(
                    head as int,
                    queue@.len() as int,
                ).contains(x as usize) <==> deg@[x] == 0),
            !on_zero ==> queue@.len() == 0,
        decreases edges@.len() - k,
    {
        if edges[k].0 == u {
            let v = edges[k].1;
            proof {
                lemma_pair_count_mono(edges@, u, v, k as int + 1, m);
                assert(pair_count(edges@, u, v, k as int + 1) == pair_count(edges@, u, v, k as int)
                    + 1);
                if old_placed[v as int] {
                    assert(old_placed[edges@[k as int].0 as int]);
                }
                assert(!old_placed[v as int]);
                assert(pair_count(edges@, u, v, m) <= in_count(edges@, old_placed, (v as int) as usize, m));
                assert(v != u);
            }
            if deg[v] > 0 {
                let ghost q_before = queue@;
                let ghost d_before = deg@[v as int];
                deg[v] = deg[v] - 1;
                if on_zero && deg[v] == 0 {
                    proof {
                        assert(!new_placed[v as int]);
                        assert(!q_before.subrange(head as int, q_before.len() as int).contains(v));
                        assert forall|t: int| 0 <= t < q_before.len() implies q_before[t] != v by {
                            if t < head {
                                assert(old_placed[q_before[t] as int] || q_before[t] == u);
                            } else {
                                assert(q_before.subrange(head as int, q_before.len() as int)[t
                                    - head] == q_before[t]);
                            }
                        }
                    }
                    queue.push(v);
                    proof {
                        assert forall|x: int|
                            0 <= x < n && !new_placed[x] implies (queue@.subrange(
                            head as int,
                            queue@.len() as int,
                        ).contains(x as usize) <==> deg@[x] == 0) by {
                            let sub_old = q_before.subrange(head as int, q_before.len() as int);
                            let sub_new = queue@.subrange(head as int, queue@.len() as int);
                            assert(sub_new == sub_old.push(v));
                            if x == v as int {
                                assert(sub_new[sub_new.len() - 1] == v);
                            } else {
                                if sub_new.contains(x as usize) {
                                    let t = choose|t: int|
                                        0 <= t < sub_new.len() && sub_new[t] == x as usize;
                                    assert(sub_old[t] == x as usize);
                                }
                                if sub_old.contains(x as usize) {
                                    let t = choose|t: int|
                                        0 <= t < sub_old.len() && sub_old[t] == x as usize;
                                    assert(sub_new[t] == x as usize);
                                }
                            }
                        }
                    }
                }
            }
        }
        k += 1;
    }
    proof {
        assert forall|v: int| 0 <= v < n implies deg@[v] == in_count(
            edges@,
            new_placed,
            v as usize,
            m,
        ) by {
            assert(in_count(edges@, old_placed, v as usize, m) == in_count(
                edges@,
                new_placed,
                v as usize,
                m,
            ) + pair_count(edges@, u, v as usize, m));
        }
        assert forall|j: int| 0 <= j < edges@.len() && new_placed[edges@[j].1 as int] implies new_placed[edges@[j].0 as int] by {
            if edges@[j].1 == u && !old_placed[edges@[j].0 as int] {
                assert(old_placed[edges@[j].0 as int]);
            }
        }
        assert forall|a: int, b: int, j: int|
            0 <= a < sorted@.len() && 0 <= b < sorted@.len() && 0 <= j < edges@.len() && edges@[j] == (
                sorted@[b],
                sorted@[a],
            ) implies b < a by {
            let last = sorted@.len() - 1;
            if a == last {
                if b == last {
                    assert(old_placed[u as int]);
                }
            } else if b == last {
                assert(old(sorted)@[a] == sorted@[a]);
                assert(old(sorted)@.contains(sorted@[a]));
                assert(old_placed[sorted@[a] as int]);
            } else {
                assert(old(sorted)@[a] == sorted@[a]);
                assert(old(sorted)@[b] == sorted@[b]);
            }
        }
    }
}


proof fn lemma_in_count_none(edges: Seq<(usize, usize)>, placed: Seq<bool>, v: usize, j: int)
    requires
        0 <= j <= edges.len(),
        forall|k: int| 0 <= k < edges.len() ==> edges[k].1 != v,
    ensures
        in_count(edges, placed, v, j) == 0,
    decreases j,
{
    if j > 0 {
        lemma_in_count_none(edges, placed, v, j - 1);
    }
}

// Kahn's arrangement of positions `0..n` starting from `root`: the placed
// positions in order, and which positions were placed.
fn sort_positions(edges: &Vec<(usize, usize)>, n: usize, root: usize) -> (r: (
    Vec<usize>,
    Vec<bool>,
))
    requires
        root < n,
        forall|k: int|
            0 <= k < edges@.len() ==> (edges@[k].0 as int) < n && (edges@[k].1 as int) < n
                && edges@[k].1 != root,
    ensures
        r.1@.len() == n,
        r.0@.no_duplicates(),
        forall|t: int| 0 <= t < r.0@.len() ==> (r.0@[t] as int) < n,
        forall|x: int| 0 <= x < n ==> (r.1@[x] <==> r.0@.contains(x as usize)),
        r.0@.len() + unplaced_count(r.1@, n as int) == n,
        r.0@.len() > 0 && r.0@[0] == root,
        forall|a: int, b: int, k: int|
            0 <= a < r.0@.len() && 0 <= b < r.0@.len() && 0 <= k < edges@.len() && edges@[k] == (
                r.0@[b],
                r.0@[a],
            ) ==> b < a,
        forall|x: int|
            0 <= x < n && !r.1@[x] ==> exists|k: int|
                0 <= k < edges@.len() && edges@[k].1 == x as usize && !r.1@[edges@[k].0 as int],
{
    let ghost m = edges@.len() as int;
    let mut deg = initial_degrees(edges, n);
    let mut placed: Vec<bool> = Vec::new();
    let mut v: usize = 0;
    while v < n
        invariant
            v <= n,
            placed@ == Seq::new(v as nat, |x: int| false),
        decreases n - v,
    {
        placed.push(false);
        v += 1;
    }
    let mut sorted: Vec<usize> = Vec::new();
    let mut queue: Vec<usize> = Vec::new();
    proof {
        lemma_unplaced_all_false(n as int);
        lemma_in_count_none(edges@, placed@, root, m);
    }
    place_position(edges, n, root, &mut deg, &mut placed, &mut sorted, &mut queue, 0, false);
    assert(sorted@[0] == root);
    let mut w: usize = 0;
    while w < n
        invariant
            w <= n,
            sorting_state(edges@, n as int, deg@, placed@, sorted@),
            sorted@.len() == 1 && sorted@[0] == root,
            placed@[root as int],
            forall|x: int| 0 <= x < n && x != root ==> !placed@[x],
            queue@.no_duplicates(),
            forall|t: int| 0 <= t < queue@.len() ==> (queue@[t] as int) < w && queue@[t] != root,
            forall|x: int|
                0 <= x < w && x != root ==> (queue@.contains(x as usize) <==> deg@[x] == 0),
        decreases n - w,
    {
        if w != root && deg[w] == 0 {
            let ghost q_before = queue@;
            queue.push(w);
            proof {
                assert forall|x: int|
                    0 <= x < w + 1 && x != root implies (queue@.contains(x as usize) <==> deg@[x]
                    == 0) by {
                    if x < w {
                        if queue@.contains(x as usize) {
                            let t = choose|t: int| 0 <= t < queue@.len() && queue@[t] == x as usize;
                            assert(q_before[t] == x as usize);
                        }
                        if q_before.contains(x as usize) {
                            let t = choose|t: int| 0 <= t < q_before.len() && q_before[t] == x as usize;
                            assert(queue@[t] == x as usize);
                        }
                    } else {
                        assert(queue@[queue@.len() - 1] == w);
                    }
                }
            }
        }
        w += 1;
    }
    let mut head: usize = 0;
    assert(queue@.subrange(0, queue@.len() as int) == queue@);
    while head < queue.len()
        invariant
            head <= queue@.len(),
            sorting_state(edges@, n as int, deg@, placed@, sorted@),
            sorted@.len() > 0 && sorted@[0] == root,
            queue@.no_duplicates(),
            forall|t: int| 0 <= t < queue@.len() ==> (queue@[t] as int) < n,
            forall|t: int| 0 <= t < head ==> placed@[queue@[t] as int],
            forall|t: int| head <= t < queue@.len() ==> !placed@[queue@[t] as int],
            forall|x: int|
                0 <= x < n && !placed@[x] ==> (queue@.subrange(
                    head as int,
                    queue@.len() as int,
                ).contains(x as usize) <==> deg@[x] == 0),
        decreases unplaced_count(placed@, n as int),
    {
        let u = queue[head];
        let ghost old_placed = placed@;
        let ghost q0 = queue@;
        proof {
            let sub = queue@.subrange(head as int, queue@.len() as int);
            assert(sub[0] == u);
            assert(!placed@[u as int]);
            assert(deg@[u as int] == 0);
            assert(!queue@.subrange(head as int + 1, queue@.len() as int).contains(u)) by {
                let s1 = queue@.subrange(head as int + 1, queue@.len() as int);
                if s1.contains(u) {
                    let t = choose|t: int| 0 <= t < s1.len() && s1[t] == u;
                    assert(queue@[head + 1 + t] == u);
                }
            }
            assert forall|x: int|
                0 <= x < n && !placed@[x] && x != u implies (queue@.subrange(
                head as int + 1,
                queue@.len() as int,
            ).contains(x as usize) <==> deg@[x] == 0) by {
                let s0 = queue@.subrange(head as int, queue@.len() as int);
                let s1 = queue@.subrange(head as int + 1, queue@.len() as int);
                if s1.contains(x as usize) {
                    let t = choose|t: int| 0 <= t < s1.len() && s1[t] == x as usize;
                    assert(s0[t + 1] == x as usize);
                }
                if s0.contains(x as usize) {
                    let t = choose|t: int| 0 <= t < s0.len() && s0[t] == x as usize;
                    assert(t != 0);
                    assert(s1[t - 1] == x as usize);
                }
            }
            lemma_unplaced_place(placed@, u as int, n as int);
        }
        place_position(
            edges,
            n,
            u,
            &mut deg,
            &mut placed,
            &mut sorted,
            &mut queue,
            head + 1,
            true,
        );
        proof {
            assert forall|t: int| 0 <= t < head + 1 implies placed@[queue@[t] as int] by {
                assert(queue@[t] == q0[t]);
            }
        }
        head += 1;
    }
    proof {
        assert forall|x: int|
            0 <= x < n && !placed@[x] implies exists|k: int|
                0 <= k < edges@.len() && edges@[k].1 == x as usize && !placed@[edges@[k].0 as int] by {
            assert(queue@.subrange(head as int, queue@.len() as int).len() == 0);
            lemma_in_count_witness(edges@, placed@, x as usize, m);
        }
    }
    (sorted, placed)
}


// `e` is one of the schedules whose position is not among the first `t` of
// `order`.
spec fn unused_source<S>(s: Seq<Schedule<S>>, order: Seq<usize>, t: int, e: Schedule<S>) -> bool {
    exists|x: int|
        0 <= x < s.len() && e == s[x] && forall|t2: int| 0 <= t2 < t ==> order[t2] != x as usize
}

// Position `x` is among the first `t` entries of `order`.
spec fn taken(order: Seq<usize>, t: int, x: int) -> bool {
    exists|t2: int| 0 <= t2 < t && order[t2] == x as usize
}

// Moves the schedules into the order given by positions.
fn arrange<S>(schedules: Vec<Schedule<S>>, order: &Vec<usize>) -> (out: Vec<Schedule<S>>)
    requires
        ids_unique(schedules@),
        order@.len() == schedules@.len(),
        order@.no_duplicates(),
        forall|t: int| 0 <= t < order@.len() ==> (order@[t] as int) < schedules@.len(),
    ensures
        out@.len() == order@.len(),
        forall|t: int| 0 <= t < order@.len() ==> out@[t] == schedules@[order@[t] as int],
{
    let ghost s = schedules@;
    let n = schedules.len();
    let mut ids: Vec<u64> = Vec::new();
    let mut i: usize = 0;
    while i < n
        invariant
            i <= n,
            n == s.len(),
            s == schedules@,
            ids@.len() == i,
            forall|k: int| 0 <= k < i ==> ids@[k] == s[k].label.id,
        decreases n - i,
    {
        ids.push(schedules[i].label.id);
        i += 1;
    }
    let mut remaining = schedules;
    proof {
        assert forall|a: int, b: int| 0 <= a < s.len() && 0 <= b < s.len() && a != b implies s[a]
            != s[b] by {
            if a < b {
                assert(s[a].label.id != s[b].label.id);
            } else {
                assert(s[b].label.id != s[a].label.id);
            }
        }
        assert forall|p: int| 0 <= p < remaining@.len() implies #[trigger] unused_source(
            s,
            order@,
            0,
            remaining@[p],
        ) by {
            assert(remaining@[p] == s[p]);
        }
    }
    let mut out: Vec<Schedule<S>> = Vec::new();
    let mut t: usize = 0;
    while t < order.len()
        invariant
            t <= order@.len(),
            order@.len() == n,
            n == s.len(),
            ids_unique(s),
            order@.no_duplicates(),
            forall|t2: int| 0 <= t2 < order@.len() ==> (order@[t2] as int) < n,
            ids@.len() == n,
            forall|k: int| 0 <= k < n ==> ids@[k] == s[k].label.id,
            out@.len() == t,
            forall|t2: int| 0 <= t2 < t ==> out@[t2] == s[order@[t2] as int],
            forall|p: int|
                0 <= p < remaining@.len() ==> #[trigger] unused_source(s, order@, t as int, remaining@[p]),
            remaining@.no_duplicates(),
            forall|x: int|
                0 <= x < n && !taken(order@, t as int, x) ==> remaining@.contains(#[trigger] s[x]),
        decreases order@.len() - t,
    {
        let target = order[t];
        let id = ids[target];
        proof {
            assert forall|t2: int| 0 <= t2 < t implies order@[t2] != target by {
                assert(order@[t as int] == target);
            }
        }
        proof {
            assert(!taken(order@, t as int, target as int));
            assert(remaining@.contains(s[target as int]));
        }
        let ghost pw = choose|p: int| 0 <= p < remaining@.len() && remaining@[p] == s[target as int];
        let mut p: usize = 0;
        while p < remaining.len() && remaining[p].label.id != id
            invariant
                p <= remaining@.len(),
                0 <= pw < remaining@.len(),
                remaining@[pw].label.id == id,
                forall|q: int| 0 <= q < p ==> remaining@[q].label.id != id,
            decreases remaining@.len() - p,
        {
            p += 1;
        }
        let ghost before = remaining@;
        proof {
            assert(unused_source(s, order@, t as int, before[p as int]));
            let x = choose|x: int|
                0 <= x < n && before[p as int] == s[x] && forall|t2: int|
                    0 <= t2 < t ==> order@[t2] != x as usize;
            assert(x == target as int);
        }
        let item = remaining.remove(p);
        out.push(item);
        proof {
            assert forall|q: int| 0 <= q < remaining@.len() implies #[trigger] unused_source(
                s,
                order@,
                t as int + 1,
                remaining@[q],
            ) by {
                let q0 = if q < p {
                    q
                } else {
                    q + 1
                };
                assert(remaining@[q] == before[q0]);
                assert(unused_source(s, order@, t as int, before[q0]));
                assert(unused_source(s, order@, t as int, before[p as int]));
                let x = choose|x: int|
                    0 <= x < n && before[q0] == s[x] && forall|t2: int|
                        0 <= t2 < t ==> order@[t2] != x as usize;
                let x_rem = choose|x: int|
                    0 <= x < n && before[p as int] == s[x] && forall|t2: int|
                        0 <= t2 < t ==> order@[t2] != x as usize;
                assert(x_rem == target as int);
                assert(q0 != p);
                assert(before[q0] != before[p as int]);
                assert(x != target as int);
                assert(remaining@[q] == s[x]);
            }
            assert forall|x: int|
                0 <= x < n && !taken(order@, t as int + 1, x) implies remaining@.contains(
                #[trigger] s[x],
            ) by {
                assert(!taken(order@, t as int, x));
                assert(before.contains(s[x]));
                let p0 = choose|p0: int| 0 <= p0 < before.len() && before[p0] == s[x];
                assert(order@[t as int] != x as usize);
                assert(p0 != p);
                if p0 < p {
                    assert(remaining@[p0] == s[x]);
                } else {
                    assert(remaining@[p0 - 1] == s[x]);
                }
            }
        }
        proof {
            assert forall|a: int, b: int|
                0 <= a < remaining@.len() && 0 <= b < remaining@.len() && a != b implies remaining@[a]
                != remaining@[b] by {
                let a0 = if a < p {
                    a
                } else {
                    a + 1
                };
                let b0 = if b < p {
                    b
                } else {
                    b + 1
                };
                assert(remaining@[a] == before[a0]);
                assert(remaining@[b] == before[b0]);
            }
        }
        t += 1;
    }
    out
}

// Every unplaced position has an incoming edge from an unplaced position.
spec fn blocked(edges: Seq<(usize, usize)>, placed: Seq<bool>, x: int) -> bool {
    exists|k: int| 0 <= k < edges.len() && edges[k].1 as int == x && !placed[edges[k].0 as int]
}

#[verifier::opaque]
spec fn stuck<S>(s: Seq<Schedule<S>>, startup: u64, edges: Seq<(usize, usize)>, placed: Seq<bool>) -> bool {
    &&& ids_unique(s)
    &&& edges_match(s, startup, edges)
    &&& placed.len() == s.len()
    &&& forall|x: int| 0 <= x < s.len() && !placed[x] ==> #[trigger] blocked(edges, placed, x)
}

// The label at every unplaced position has a predecessor that is unplaced
// too, so no order can start the unplaced labels.
proof fn lemma_unplaced_prefix_free<S>(
    s: Seq<Schedule<S>>,
    startup: u64,
    edges: Seq<(usize, usize)>,
    placed: Seq<bool>,
    o: Seq<u64>,
    m: int,
)
    requires
        stuck(s, startup, edges, placed),
        is_valid_order(s, startup, o),
        0 <= m <= o.len(),
    ensures
        forall|a: int, x: int| 0 <= a < m && 0 <= x < s.len() && !placed[x] ==> o[a] != s[x].label.id,
    decreases m,
{
    reveal(stuck);
    if m > 0 {
        lemma_unplaced_prefix_free(s, startup, edges, placed, o, m - 1);
        assert forall|a: int, x: int| 0 <= a < m && 0 <= x < s.len() && !placed[x] implies o[a]
            != s[x].label.id by {
            if a == m - 1 && o[a] == s[x].label.id {
                assert(blocked(edges, placed, x));
                let k = choose|k: int|
                    0 <= k < edges.len() && edges[k].1 as int == x && !placed[edges[k].0 as int];
                let pp = edges[k].0 as int;
                assert((edges[k].1 as int) == x);
                assert(has_edge(
                    s,
                    startup,
                    s[edges[k].0 as int].label.id,
                    s[edges[k].1 as int].label.id,
                ));
                assert(has_edge(s, startup, s[pp].label.id, s[x].label.id));
                assert(o.contains(s[pp].label.id));
                let b = choose|b: int| 0 <= b < o.len() && o[b] == s[pp].label.id;
                assert(has_edge(s, startup, o[b], o[a]));
                assert(b < a);
            }
        }
    }
}

proof fn lemma_no_valid_order<S>(
    s: Seq<Schedule<S>>,
    startup: u64,
    edges: Seq<(usize, usize)>,
    placed: Seq<bool>,
    x0: int,
)
    requires
        stuck(s, startup, edges, placed),
        0 <= x0 < s.len(),
        !placed[x0],
    ensures
        forall|o: Seq<u64>| !#[trigger] is_valid_order(s, startup, o),
{
    assert forall|o: Seq<u64>| !#[trigger] is_valid_order(s, startup, o) by {
        lemma_not_valid(s, startup, edges, placed, x0, o);
    }
}

proof fn lemma_not_valid<S>(
    s: Seq<Schedule<S>>,
    startup: u64,
    edges: Seq<(usize, usize)>,
    placed: Seq<bool>,
    x0: int,
    o: Seq<u64>,
)
    requires
        stuck(s, startup, edges, placed),
        0 <= x0 < s.len(),
        !placed[x0],
    ensures
        !is_valid_order(s, startup, o),
{
    if is_valid_order(s, startup, o) {
        lemma_unplaced_prefix_free(s, startup, edges, placed, o, o.len() as int);
        assert(o.contains(s[x0].label.id));
        let a = choose|a: int| 0 <= a < o.len() && o[a] == s[x0].label.id;
        assert(o[a] != s[x0].label.id);
    }
}

/// Arranges the registered schedules into their execution order.
///
/// The checks come in this order: a label registered twice, a missing
/// `startup` label, then the first misplaced schedule (placed before
/// `startup`, or relative to a label never registered). When none applies,
/// the schedules come back in an order that starts with `startup` and puts
/// every schedule after the ones it must follow, if such an order exists;
/// otherwise the constraints are circular.
/// The error owed for schedules `s` with root `startup`, checked in this
/// order: the first label registered twice; a missing root; the first
/// schedule placed before the root or relative to an unregistered label; and
/// otherwise a cycle, naming the schedules that could not be placed.
pub open spec fn schedule_error_for<S>(s: Seq<Schedule<S>>, startup: u64, e: ScheduleError) -> bool {
    if !ids_unique(s) {
        exists|j: int| is_first_duplicate(s, j) && e == ScheduleError::DuplicateSchedule(s[j].label)
    } else if !has_id(s, startup) {
        e == ScheduleError::MissingStartup
    } else if !no_placement_errors(s, startup) {
        exists|i: int| is_first_placement_error(s, startup, i) && Some(e) == placement_error(s, startup, i)
    } else {
        &&& e matches ScheduleError::CircularDependency(t)
        &&& t@.len() > 0
        &&& forall|k: int| 0 <= k < t@.len() ==> has_id(s, t@[k].id)
    }
}

pub fn order_schedules<S>(schedules: Vec<Schedule<S>>, startup: ScheduleId) -> (r: Result<
    Vec<Schedule<S>>,
    ScheduleError,
>)
    ensures
        !ids_unique(schedules@) ==> exists|j: int|
            is_first_duplicate(schedules@, j) && (r matches Err(
                ScheduleError::DuplicateSchedule(l),
            ) && l == schedules@[j].label),
        ids_unique(schedules@) && !has_id(schedules@, startup.id) ==> r matches Err(
            ScheduleError::MissingStartup,
        ),
        ids_unique(schedules@) && has_id(schedules@, startup.id) && !no_placement_errors(
            schedules@,
            startup.id,
        ) ==> exists|i: int|
            is_first_placement_error(schedules@, startup.id, i) && (r matches Err(e) && Some(e)
                == placement_error(schedules@, startup.id, i)),
        ids_unique(schedules@) && has_id(schedules@, startup.id) && no_placement_errors(
            schedules@,
            startup.id,
        ) ==> (r is Ok <==> exists|o: Seq<u64>| #[trigger]
            is_valid_order(schedules@, startup.id, o)),
        r matches Ok(out) ==> {
            &&& ids_unique(schedules@)
            &&& is_valid_order(schedules@, startup.id, label_ids(out@))
            &&& forall|k: int| 0 <= k < out@.len() ==> schedules@.contains(#[trigger] out@[k])
        },
        r matches Err(ScheduleError::CircularDependency(t)) ==> {
            &&& t@.len() > 0
            &&& forall|k: int| 0 <= k < t@.len() ==> has_id(schedules@, t@[k].id)
        },
        r matches Err(e) ==> schedule_error_for(schedules@, startup.id, e),
{
    let ghost s = schedules@;
    let n = schedules.len();
    let mut j: usize = 0;
    while j < n
        invariant
            j <= n,
            n == s.len(),
            s == schedules@,
            forall|i2: int, j2: int| 0 <= i2 < j2 < j ==> s[i2].label.id != s[j2].label.id,
        decreases n - j,
    {
        let mut i: usize = 0;
        while i < j
            invariant
                i <= j < n,
                n == s.len(),
                s == schedules@,
                forall|i2: int| 0 <= i2 < i ==> s[i2].label.id != s[j as int].label.id,
                forall|i2: int, j2: int| 0 <= i2 < j2 < j ==> s[i2].label.id != s[j2].label.id,
            decreases j - i,
        {
            if schedules[i].label.id == schedules[j].label.id {
                assert(0 <= i < j && s[i as int].label.id == s[j as int].label.id);
                assert(is_first_duplicate(s, j as int));
                return Err(ScheduleError::DuplicateSchedule(schedules[j].label));
            }
            i += 1;
        }
        j += 1;
    }
    let root = match find_schedule(&schedules, startup.id) {
        None => {
            return Err(ScheduleError::MissingStartup);
        },
        Some(k) => k,
    };
    let edges = match collect_edges(&schedules, startup.id) {
        Err(e) => {
            return Err(e);
        },
        Ok(edges) => edges,
    };
    proof {
        assert forall|k: int| 0 <= k < edges@.len() implies edges@[k].1 != root by {
            assert(s[edges@[k].1 as int].label.id != startup.id);
        }
    }
    let (sorted, placed) = sort_positions(&edges, n, root);
    if sorted.len() == n {
        let out = arrange(schedules, &sorted);
        proof {
            lemma_unplaced_zero(placed@, n as int);
            let o = label_ids(out@);
            assert forall|a: int, b: int|
                0 <= a < o.len() && 0 <= b < o.len() && #[trigger] has_edge(s, startup.id, o[a], o[b])
                    implies a < b by {
                let i = choose|i: int|
                    0 <= i < s.len() && #[trigger] schedule_edge(s, startup.id, i, o[a], o[b]);
                let k = choose|k: int|
                    0 <= k < edges@.len() && s[edges@[k].0 as int].label.id == o[a] && s[edges@[
                        k
                    ].1 as int].label.id == o[b];
                assert(edges@[k].0 == sorted@[a]);
                assert(edges@[k].1 == sorted@[b]);
            }
            assert forall|k: int| 0 <= k < o.len() implies #[trigger] has_id(s, o[k]) by {
                assert(s[sorted@[k] as int].label.id == o[k]);
            }
            assert forall|i: int| 0 <= i < s.len() implies #[trigger] o.contains(s[i].label.id) by {
                assert(placed@[i]);
                let t = choose|t: int| 0 <= t < sorted@.len() && sorted@[t] == i as usize;
                assert(o[t] == s[i].label.id);
            }
            assert forall|a: int, b: int| 0 <= a < o.len() && 0 <= b < o.len() && a != b implies o[a]
                != o[b] by {
                assert(sorted@[a] != sorted@[b]);
            }
            assert(is_valid_order(s, startup.id, o));
            assert forall|k: int| 0 <= k < out@.len() implies s.contains(#[trigger] out@[k]) by {
                assert(out@[k] == s[sorted@[k] as int]);
            }
        }
        Ok(out)
    } else {
        let mut trapped: Vec<ScheduleId> = Vec::new();
        let mut x: usize = 0;
        let ghost mut witness: int = -1;
        while x < n
            invariant
                x <= n,
                n == s.len(),
                s == schedules@,
                placed@.len() == n,
                forall|k: int| 0 <= k < trapped@.len() ==> has_id(s, trapped@[k].id),
                witness == -1 ==> trapped@.len() == 0 && forall|y: int| 0 <= y < x ==> placed@[y],
                witness != -1 ==> 0 <= witness < n && !placed@[witness] && trapped@.len() > 0,
            decreases n - x,
        {
            if !placed[x] {
                trapped.push(schedules[x].label);
                proof {
                    witness = x as int;
                    assert(has_id(s, schedules@[x as int].label.id));
                }
            }
            x += 1;
        }
        proof {
            if witness == -1 {
                assert(forall|y: int| 0 <= y < n ==> placed@[y]);
                assert(unplaced_count(placed@, n as int) == 0) by {
                    lemma_unplaced_all_placed(placed@, n as int);
                }
            }
            reveal(stuck);
            assert forall|y: int| 0 <= y < n && !placed@[y] implies #[trigger] blocked(
                edges@,
                placed@,
                y,
            ) by {}
            assert(stuck(s, startup.id, edges@, placed@));
            lemma_no_valid_order(s, startup.id, edges@, placed@, witness);
        }
        Err(ScheduleError::CircularDependency(trapped))
    }
}

proof fn lemma_unplaced_all_placed(placed: Seq<bool>, j: int)
    requires
        0 <= j <= placed.len(),
        forall|x: int| 0 <= x < j ==> placed[x],
    ensures
        unplaced_count(placed, j) == 0,
    decreases j,
{
    if j > 0 {
        lemma_unplaced_all_placed(placed, j - 1);
    }
}

} // verus!
