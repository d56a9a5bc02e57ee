//! What each system parameter reads and writes, and the check that a system's
//! parameters never alias the same data mutably.
use std::collections::HashSet;
use vstd::prelude::*;

verus! {

broadcast use vstd::std_specs::hash::group_hash_axioms;

/// The number that stands for a component, marker, resource or event type.
pub type ComponentId = u64;

/// A growable list of accessed types.
pub struct AccessVec<T> {
    pub(crate) vec: Vec<T>,
}

impl<T> View for AccessVec<T> {
    type V = Seq<T>;

    closed spec fn view(&self) -> Seq<T> {
        self.vec@
    }
}

impl<T> AccessVec<T> {
    /// An empty list.
    pub fn new() -> (r: AccessVec<T>)
        ensures
            r@ == Seq::<T>::empty(),
    {
        AccessVec { vec: Vec::new() }
    }

    /// Appends `val`.
    pub fn push(&mut self, val: T)
        ensures
            final(self)@ == old(self)@.push(val),
    {
        self.vec.push(val);
    }

    /// Iterates over the entries in the order they were pushed.
    pub fn iter(&self) -> (r: std::slice::Iter<'_, T>)
        ensures
            vstd::std_specs::slice::into_iter_elts(r) == self@,
    {
        broadcast use vstd::std_specs::slice::axiom_spec_slice_iter;

        let r = self.vec.as_slice().iter();
        proof {
            assert(vstd::std_specs::iter::IteratorSpec::remaining(&r).unref() == self@);
        }
        r
    }

    /// The entries as a slice.
    pub fn as_slice(&self) -> (r: &[T])
        ensures
            r@ == self@,
    {
        self.vec.as_slice()
    }
}

impl<T> Default for AccessVec<T> {
    fn default() -> (r: AccessVec<T>)
        ensures
            r@ == Seq::<T>::empty(),
    {
        AccessVec::new()
    }
}

/// A set of type numbers.
pub struct AccessHashSet {
    pub(crate) set: HashSet<ComponentId>,
}

impl View for AccessHashSet {
    type V = Set<ComponentId>;

    closed spec fn view(&self) -> Set<ComponentId> {
        self.set@
    }
}

impl AccessHashSet {
    /// An empty set.
    pub fn new() -> (r: AccessHashSet)
        ensures
            r@ == Set::<ComponentId>::empty(),
    {
        AccessHashSet { set: HashSet::new() }
    }

    /// Adds `val`; true when it was not there yet.
    pub fn insert(&mut self, val: ComponentId) -> (r: bool)
        ensures
            final(self)@ == old(self)@.insert(val),
            r == !old(self)@.contains(val),
    {
        self.set.insert(val)
    }

    /// Whether `val` is in the set.
    pub fn contains(&self, val: &ComponentId) -> (r: bool)
        ensures
            r == self@.contains(*val),
    {
        self.set.contains(val)
    }
}

impl Default for AccessHashSet {
    fn default() -> (r: AccessHashSet)
        ensures
            r@ == Set::<ComponentId>::empty(),
    {
        AccessHashSet::new()
    }
}

/// What one system parameter reads and writes: components, the query
/// filters that make it disjoint from other queries, and resources.
pub struct ParamAccess {
    pub reads: AccessVec<ComponentId>,
    pub writes: AccessVec<ComponentId>,
    pub with_filters: AccessVec<ComponentId>,
    pub without_filters: AccessVec<ComponentId>,
    pub res_reads: AccessVec<ComponentId>,
    pub res_writes: AccessVec<ComponentId>,
}

impl ParamAccess {
    /// A parameter that touches nothing.
    pub fn new() -> (r: ParamAccess)
        ensures
            r.reads@.len() == 0,
            r.writes@.len() == 0,
            r.with_filters@.len() == 0,
            r.without_filters@.len() == 0,
            r.res_reads@.len() == 0,
            r.res_writes@.len() == 0,
    {
        ParamAccess {
            reads: AccessVec::new(),
            writes: AccessVec::new(),
            with_filters: AccessVec::new(),
            without_filters: AccessVec::new(),
            res_reads: AccessVec::new(),
            res_writes: AccessVec::new(),
        }
    }
}

impl Default for ParamAccess {
    fn default() -> (r: ParamAccess)
        ensures
            r.reads@.len() == 0,
            r.writes@.len() == 0,
            r.with_filters@.len() == 0,
            r.without_filters@.len() == 0,
            r.res_reads@.len() == 0,
            r.res_writes@.len() == 0,
    {
        ParamAccess::new()
    }
}

/// Some entry of `a` occurs in `b`.
pub open spec fn overlap(a: Seq<ComponentId>, b: Seq<ComponentId>) -> bool {
    exists|i: int| 0 <= i < a.len() && b.contains(#[trigger] a[i])
}

/// A parameter writes something it also reads, or writes the same thing twice.
pub open spec fn intra_conflict(p: ParamAccess) -> bool {
    overlap(p.writes@, p.reads@) || !p.writes@.no_duplicates()
}

/// One of the two parameters writes a component that the other reads or writes.
pub open spec fn write_conflict(a: ParamAccess, b: ParamAccess) -> bool {
    overlap(a.writes@, b.writes@) || overlap(a.writes@, b.reads@) || overlap(b.writes@, a.writes@)
        || overlap(b.writes@, a.reads@)
}

/// The filters of the two parameters exclude each other's entities.
pub open spec fn filters_disjoint(a: ParamAccess, b: ParamAccess) -> bool {
    overlap(a.with_filters@, b.without_filters@) || overlap(b.with_filters@, a.without_filters@)
}

pub open spec fn component_conflict(a: ParamAccess, b: ParamAccess) -> bool {
    write_conflict(a, b) && !filters_disjoint(a, b)
}

/// One of the two parameters writes a resource that the other reads or writes.
pub open spec fn resource_conflict(a: ParamAccess, b: ParamAccess) -> bool {
    overlap(a.res_writes@, b.res_writes@) || overlap(a.res_writes@, b.res_reads@) || overlap(
        b.res_writes@,
        a.res_writes@,
    ) || overlap(b.res_writes@, a.res_reads@)
}

pub open spec fn pair_conflict(a: ParamAccess, b: ParamAccess) -> bool {
    component_conflict(a, b) || resource_conflict(a, b)
}

/// The ordered pair `(i, j)`, `i != j`, comes before `(i2, j2)`.
pub open spec fn pair_before(i: int, j: int, i2: int, j2: int) -> bool {
    i < i2 || (i == i2 && j < j2)
}

/// Why a system's parameters cannot be used together.
#[derive(Debug, PartialEq, Eq)]
pub enum AccessConflict {
    /// The parameter at this position conflicts with itself.
    IntraParam(usize),
    /// The two parameters borrow the same component data mutably without
    /// disjoint filters.
    Component(usize, usize),
    /// The two parameters borrow the same resource mutably.
    Resource(usize, usize),
}

// Some entry of `a` occurs in `b`.
fn overlaps(a: &AccessVec<ComponentId>, b: &AccessVec<ComponentId>) -> (r: bool)
    ensures
        r == overlap(a@, b@),
{
    let mut i: usize = 0;
    while i < a.vec.len()
        invariant
            i <= a@.len(),
            forall|k: int| 0 <= k < i ==> !b@.contains(#[trigger] a@[k]),
        decreases a@.len() - i,
    {
        let x = a.vec[i];
        let mut j: usize = 0;
        while j < b.vec.len()
            invariant
                j <= b@.len(),
                i < a@.len(),
                x == a@[i as int],
                forall|k: int| 0 <= k < j ==> b@[k] != x,
            decreases b@.len() - j,
        {
            if b.vec[j] == x {
                assert(b@[j as int] == a@[i as int]);
                assert(b@.contains(a@[i as int]));
                return true;
            }
            j += 1;
        }
        i += 1;
    }
    false
}

// Some entry occurs twice.
fn has_duplicate(v: &AccessVec<ComponentId>) -> (r: bool)
    ensures
        r == !v@.no_duplicates(),
{
    let mut unique: HashSet<ComponentId> = HashSet::new();
    let mut i: usize = 0;
    while i < v.vec.len()
        invariant
            i <= v@.len(),
            forall|a: int, b: int| 0 <= a < b < i ==> v@[a] != v@[b],
            forall|x: ComponentId| unique@.contains(x) <==> exists|k: int| 0 <= k < i && v@[k] == x,
        decreases v@.len() - i,
    {
        let x = v.vec[i];
        if !unique.insert(x) {
            proof {
                let k = choose|k: int| 0 <= k < i && v@[k] == x;
                assert(v@[k] == v@[i as int]);
            }
            return true;
        }
        assert forall|y: ComponentId| unique@.contains(y) implies exists|k: int|
            0 <= k < i + 1 && v@[k] == y by {
            if y == x {
                assert(v@[i as int] == y);
            }
        }
        i += 1;
    }
    false
}

/// The parameters may be handed out together: none conflicts with itself,
/// and no two distinct ones conflict.
pub open spec fn accepted(params: Seq<ParamAccess>) -> bool {
    &&& forall|i: int| 0 <= i < params.len() ==> !intra_conflict(#[trigger] params[i])
    &&& forall|i: int, j: int|
        0 <= i < params.len() && 0 <= j < params.len() && i != j ==> !pair_conflict(
            #[trigger] params[i],
            #[trigger] params[j],
        )
}

/// Checks that a system's parameters may be handed out together.
///
/// First every parameter on its own (in order): it must not write what it
/// reads, nor write one component twice. Then every ordered pair of distinct
/// positions, `(0, 1), (0, 2), ..., (1, 0), ...`: two parameters conflict on
/// components when one writes what the other reads or writes and their
/// `With`/`Without` filters do not set them apart; they conflict on
/// resources when one writes a resource that the other reads or writes. The
/// first finding is reported, a component conflict before a resource
/// conflict of the same pair.
pub fn check_system_access(params: &Vec<ParamAccess>) -> (r: Result<(), AccessConflict>)
    ensures
        r is Ok <==> accepted(params@),
        r is Ok <==> (forall|i: int| 0 <= i < params@.len() ==> !intra_conflict(#[trigger] params@[i]))
            && (forall|i: int, j: int|
            0 <= i < params@.len() && 0 <= j < params@.len() && i != j ==> !pair_conflict(
                #[trigger] params@[i],
                #[trigger] params@[j],
            )),
        r matches Err(AccessConflict::IntraParam(i)) ==> {
            &&& (i as int) < params@.len()
            &&& intra_conflict(params@[i as int])
            &&& forall|k: int| 0 <= k < i ==> !intra_conflict(#[trigger] params@[k])
        },
        r matches Err(AccessConflict::Component(i, j)) ==> {
            &&& (i as int) < params@.len() && (j as int) < params@.len() && i != j
            &&& component_conflict(params@[i as int], params@[j as int])
            &&& forall|k: int| 0 <= k < params@.len() ==> !intra_conflict(#[trigger] params@[k])
            &&& forall|i2: int, j2: int|
                0 <= i2 < params@.len() && 0 <= j2 < params@.len() && i2 != j2 && pair_before(
                    i2,
                    j2,
                    i as int,
                    j as int,
                ) ==> !pair_conflict(#[trigger] params@[i2], #[trigger] params@[j2])
        },
        r matches Err(AccessConflict::Resource(i, j)) ==> {
            &&& (i as int) < params@.len() && (j as int) < params@.len() && i != j
            &&& !component_conflict(params@[i as int], params@[j as int])
            &&& resource_conflict(params@[i as int], params@[j as int])
            &&& forall|k: int| 0 <= k < params@.len() ==> !intra_conflict(#[trigger] params@[k])
            &&& forall|i2: int, j2: int|
                0 <= i2 < params@.len() && 0 <= j2 < params@.len() && i2 != j2 && pair_before(
                    i2,
                    j2,
                    i as int,
                    j as int,
                ) ==> !pair_conflict(#[trigger] params@[i2], #[trigger] params@[j2])
        },
{
    let n = params.len();
    let mut k: usize = 0;
    while k < n
        invariant
            k <= n,
            n == params@.len(),
            forall|q: int| 0 <= q < k ==> !intra_conflict(#[trigger] params@[q]),
        decreases n - k,
    {
        let p = &params[k];
        if overlaps(&p.writes, &p.reads) || has_duplicate(&p.writes) {
            return Err(AccessConflict::IntraParam(k));
        }
        k += 1;
    }
    let mut i: usize = 0;
    while i < n
        invariant
            i <= n,
            n == params@.len(),
            forall|q: int| 0 <= q < n ==> !intra_conflict(#[trigger] params@[q]),
            forall|i2: int, j2: int|
                0 <= i2 < i && 0 <= j2 < n && i2 != j2 ==> !pair_conflict(
                    #[trigger] params@[i2],
                    #[trigger] params@[j2],
                ),
        decreases n - i,
    {
        let mut j: usize = 0;
        while j < n
            invariant
                i < n,
                j <= n,
                n == params@.len(),
                forall|q: int| 0 <= q < n ==> !intra_conflict(#[trigger] params@[q]),
                forall|i2: int, j2: int|
                    0 <= i2 < n && 0 <= j2 < n && i2 != j2 && pair_before(
                        i2,
                        j2,
                        i as int,
                        j as int,
                    ) ==> !pair_conflict(#[trigger] params@[i2], #[trigger] params@[j2]),
            decreases n - j,
        {
            if i != j {
                let a = &params[i];
                let b = &params[j];
                let has_write_conflict = overlaps(&a.writes, &b.writes) || overlaps(
                    &a.writes,
                    &b.reads,
                ) || overlaps(&b.writes, &a.writes) || overlaps(&b.writes, &a.reads);
                if has_write_conflict {
                    let is_disjoint = overlaps(&a.with_filters, &b.without_filters) || overlaps(
                        &b.with_filters,
                        &a.without_filters,
                    );
                    if !is_disjoint {
                        return Err(AccessConflict::Component(i, j));
                    }
                }
                let has_resource_conflict = overlaps(&a.res_writes, &b.res_writes) || overlaps(
                    &a.res_writes,
                    &b.res_reads,
                ) || overlaps(&b.res_writes, &a.res_writes) || overlaps(&b.res_writes, &a.res_reads);
                if has_resource_conflict {
                    return Err(AccessConflict::Resource(i, j));
                }
            }
            j += 1;
        }
        i += 1;
    }
    Ok(())
}

/// Per-system data that change detection reads: the generation in which the
/// system last ran, the current one, and the system's position in the frame.
pub struct FunctionGenerationData {
    pub last_run_generation: u8,
    pub current_run_generation: u8,
    pub system_id: u32,
}

impl FunctionGenerationData {
    /// Data of a system that never ran.
    pub fn new() -> (r: FunctionGenerationData)
        ensures
            r.last_run_generation == 0,
            r.current_run_generation == 0,
            r.system_id == 0,
    {
        FunctionGenerationData { last_run_generation: 0, current_run_generation: 0, system_id: 0 }
    }
}

/// The position of a system among all systems of the frame.
pub struct SystemId(pub u32);

impl SystemId {
    pub fn new(id: u32) -> (r: SystemId)
        ensures
            r.0 == id,
    {
        SystemId(id)
    }

    pub fn get_id(&self) -> (r: u32)
        ensures
            r == self.0,
    {
        self.0
    }

    /// The id that a system parameter of this kind reads out of the
    /// system's generation data.
    pub fn extract(data: &FunctionGenerationData) -> (r: SystemId)
        ensures
            r.0 == data.system_id,
    {
        SystemId(data.system_id)
    }

    /// A system id reads no component and no resource.
    pub fn get_access() -> (r: ParamAccess)
        ensures
            r.reads@.len() == 0,
            r.writes@.len() == 0,
            r.with_filters@.len() == 0,
            r.without_filters@.len() == 0,
            r.res_reads@.len() == 0,
            r.res_writes@.len() == 0,
    {
        ParamAccess::new()
    }
}


/// Two distinct parameters that both write a component, or of which one
/// writes a component the other reads, are refused unless their
/// `With`/`Without` filters set them apart.
pub proof fn lemma_shared_component_refused(params: Seq<ParamAccess>, i: int, j: int, x: ComponentId)
    requires
        0 <= i < params.len(),
        0 <= j < params.len(),
        i != j,
        params[i].writes@.contains(x),
        params[j].writes@.contains(x) || params[j].reads@.contains(x),
        !filters_disjoint(params[i], params[j]),
    ensures
        !accepted(params),
{
    let a = params[i];
    let b = params[j];
    let k = choose|k: int| 0 <= k < a.writes@.len() && a.writes@[k] == x;
    if b.writes@.contains(x) {
        assert(b.writes@.contains(a.writes@[k]));
        assert(overlap(a.writes@, b.writes@));
    } else {
        assert(b.reads@.contains(a.writes@[k]));
        assert(overlap(a.writes@, b.reads@));
    }
    assert(pair_conflict(params[i], params[j]));
}

/// Two distinct parameters of which one writes a resource that the other
/// reads or writes are refused, whatever their filters.
pub proof fn lemma_shared_resource_refused(params: Seq<ParamAccess>, i: int, j: int, x: ComponentId)
    requires
        0 <= i < params.len(),
        0 <= j < params.len(),
        i != j,
        params[i].res_writes@.contains(x),
        params[j].res_writes@.contains(x) || params[j].res_reads@.contains(x),
    ensures
        !accepted(params),
{
    let a = params[i];
    let b = params[j];
    let k = choose|k: int| 0 <= k < a.res_writes@.len() && a.res_writes@[k] == x;
    if b.res_writes@.contains(x) {
        assert(b.res_writes@.contains(a.res_writes@[k]));
        assert(overlap(a.res_writes@, b.res_writes@));
    } else {
        assert(b.res_reads@.contains(a.res_writes@[k]));
        assert(overlap(a.res_writes@, b.res_reads@));
    }
    assert(pair_conflict(params[i], params[j]));
}

/// A parameter that writes a component it also reads, or writes one
/// component twice, is refused.
pub proof fn lemma_self_alias_refused(params: Seq<ParamAccess>, i: int, x: ComponentId)
    requires
        0 <= i < params.len(),
        params[i].writes@.contains(x),
        params[i].reads@.contains(x) || exists|k1: int, k2: int|
            0 <= k1 < k2 < params[i].writes@.len() && params[i].writes@[k1] == params[i].writes@[k2],
    ensures
        !accepted(params),
{
    let a = params[i];
    if a.reads@.contains(x) {
        let k = choose|k: int| 0 <= k < a.writes@.len() && a.writes@[k] == x;
        assert(a.reads@.contains(a.writes@[k]));
        assert(overlap(a.writes@, a.reads@));
    } else {
        let (k1, k2) = choose|k1: int, k2: int|
            0 <= k1 < k2 < a.writes@.len() && a.writes@[k1] == a.writes@[k2];
        assert(!a.writes@.no_duplicates());
    }
    assert(intra_conflict(params[i]));
}

/// Parameters that only read, components and resources alike, are always
/// accepted together.
pub proof fn lemma_readers_accepted(params: Seq<ParamAccess>)
    requires
        forall|i: int| 0 <= i < params.len() ==> (#[trigger] params[i]).writes@.len() == 0 && params[i].res_writes@.len() == 0,
    ensures
        accepted(params),
{
    assert forall|i: int| 0 <= i < params.len() implies !intra_conflict(#[trigger] params[i]) by {
        assert(params[i].writes@.len() == 0);
        assert(params[i].writes@.no_duplicates());
    }
}

/// Two parameters that write the same components but whose filters set
/// them apart (one requires a kind the other excludes) are accepted
/// together, when neither aliases itself and they share no resource.
pub proof fn lemma_disjoint_filters_accepted(a: ParamAccess, b: ParamAccess, x: ComponentId)
    requires
        !intra_conflict(a),
        !intra_conflict(b),
        a.with_filters@.contains(x),
        b.without_filters@.contains(x),
        a.res_writes@.len() == 0,
        b.res_writes@.len() == 0,
    ensures
        accepted(seq![a, b]),
{
    let k = choose|k: int| 0 <= k < a.with_filters@.len() && a.with_filters@[k] == x;
    assert(b.without_filters@.contains(a.with_filters@[k]));
    assert(filters_disjoint(a, b));
    assert(filters_disjoint(b, a));
    let ps = seq![a, b];
    assert forall|i: int, j: int|
        0 <= i < ps.len() && 0 <= j < ps.len() && i != j implies !pair_conflict(#[trigger] ps[i], #[trigger] ps[j]) by {
        if i == 0 {
            assert(ps[i] == a && ps[j] == b);
        } else {
            assert(ps[i] == b && ps[j] == a);
        }
    }
    assert forall|i: int| 0 <= i < ps.len() implies !intra_conflict(#[trigger] ps[i]) by {
        if i == 0 {
            assert(ps[i] == a);
        } else {
            assert(ps[i] == b);
        }
    }
}

} // verus!
