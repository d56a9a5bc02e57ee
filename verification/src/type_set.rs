//! The set of component numbers that makes up an archetype, kept in an
//! insertion-ordered `indexmap::IndexSet` hashed with `fxhash`.
use crate::validation::ComponentId;
use fxhash::FxBuildHasher;
use indexmap::IndexSet;
use vstd::prelude::*;

verus! {

#[verifier::external_type_specification]
#[verifier::external_body]
#[verifier::reject_recursive_types(T)]
#[verifier::reject_recursive_types(S)]
pub struct ExIndexSet<T, S>(IndexSet<T, S>);

#[verifier::external_type_specification]
#[verifier::external_body]
pub struct ExFxHasher(fxhash::FxHasher);

#[verifier::external_type_specification]
#[verifier::external_body]
#[verifier::reject_recursive_types(H)]
pub struct ExBuildHasherDefault<H>(std::hash::BuildHasherDefault<H>);

/// The entries of an `IndexSet` of 64-bit numbers, in insertion order.
pub uninterp spec fn index_set_items(s: IndexSet<u64, FxBuildHasher>) -> Seq<u64>;

/// `IndexSet::with_hasher` with a default `FxBuildHasher`: a set with no
/// entries.
#[verifier::external_body]
fn index_set_new() -> (r: IndexSet<u64, FxBuildHasher>)
    ensures
        index_set_items(r) == Seq::<u64>::empty(),
{
    IndexSet::with_hasher(FxBuildHasher::default())
}

/// `IndexSet::insert`: when `x` is absent it is appended and `true` comes
/// back; when present the set is unchanged and `false` comes back.
#[verifier::external_body]
fn index_set_insert(s: &mut IndexSet<u64, FxBuildHasher>, x: u64) -> (r: bool)
    ensures
        r == !index_set_items(*old(s)).contains(x),
        index_set_items(*final(s)) == if r {
            index_set_items(*old(s)).push(x)
        } else {
            index_set_items(*old(s))
        },
{
    s.insert(x)
}

/// `IndexSet::contains`: whether `x` is an entry.
#[verifier::external_body]
fn index_set_contains(s: &IndexSet<u64, FxBuildHasher>, x: u64) -> (r: bool)
    ensures
        r == index_set_items(*s).contains(x),
{
    s.contains(&x)
}

/// `IndexSet::shift_remove`: removes `x` if present, keeping the order of
/// the other entries; whether it was present.
#[verifier::external_body]
fn index_set_shift_remove(s: &mut IndexSet<u64, FxBuildHasher>, x: u64) -> (r: bool)
    ensures
        r == index_set_items(*old(s)).contains(x),
        index_set_items(*final(s)) == index_set_items(*old(s)).remove_value(x),
{
    s.shift_remove(&x)
}

/// `IndexSet::len`: the number of entries.
#[verifier::external_body]
fn index_set_len(s: &IndexSet<u64, FxBuildHasher>) -> (r: usize)
    ensures
        r == index_set_items(*s).len(),
{
    s.len()
}

/// `IndexSet::get_index`: the entry at position `i`.
#[verifier::external_body]
fn index_set_get_index(s: &IndexSet<u64, FxBuildHasher>, i: usize) -> (r: Option<u64>)
    ensures
        r == if i < index_set_items(*s).len() {
            Some(index_set_items(*s)[i as int])
        } else {
            None::<u64>
        },
{
    s.get_index(i).copied()
}

/// `IndexSet::clone`: a set with the same entries in the same order.
#[verifier::external_body]
fn index_set_clone(s: &IndexSet<u64, FxBuildHasher>) -> (r: IndexSet<u64, FxBuildHasher>)
    ensures
        index_set_items(r) == index_set_items(*s),
{
    s.clone()
}

/// A set of component numbers in insertion order.
pub struct TypeSet {
    pub(crate) items: IndexSet<u64, FxBuildHasher>,
}

impl View for TypeSet {
    type V = Seq<ComponentId>;

    closed spec fn view(&self) -> Seq<ComponentId> {
        index_set_items(self.items)
    }
}

impl TypeSet {
    /// Every entry occurs once.
    pub open spec fn wf(&self) -> bool {
        self@.no_duplicates()
    }

    pub fn new() -> (r: TypeSet)
        ensures
            r@ == Seq::<ComponentId>::empty(),
            r.wf(),
    {
        TypeSet { items: index_set_new() }
    }

    /// Adds `x` at the end unless present; whether it was added.
    pub fn insert(&mut self, x: ComponentId) -> (r: bool)
        requires
            old(self).wf(),
        ensures
            final(self).wf(),
            r == !old(self)@.contains(x),
            final(self)@ == if r {
                old(self)@.push(x)
            } else {
                old(self)@
            },
            final(self)@.to_set() == old(self)@.to_set().insert(x),
    {
        let r = index_set_insert(&mut self.items, x);
        proof {
            if r {
                assert forall|a: int, b: int|
                    0 <= a < self@.len() && 0 <= b < self@.len() && a != b implies self@[a]
                    != self@[b] by {
                    if a == self@.len() - 1 {
                        assert(self@[b] == old(self)@[b]);
                        if old(self)@[b] == x {
                            assert(old(self)@.contains(x));
                        }
                    } else if b == self@.len() - 1 {
                        assert(self@[a] == old(self)@[a]);
                        if old(self)@[a] == x {
                            assert(old(self)@.contains(x));
                        }
                    } else {
                        assert(self@[a] == old(self)@[a]);
                        assert(self@[b] == old(self)@[b]);
                    }
                }
                assert(self@.to_set() =~= old(self)@.to_set().insert(x)) by {
                    assert forall|y: ComponentId| self@.contains(y) <==> (old(self)@.contains(y)
                        || y == x) by {
                        if self@.contains(y) {
                            let k = choose|k: int| 0 <= k < self@.len() && self@[k] == y;
                            if k < old(self)@.len() {
                                assert(old(self)@[k] == y);
                            }
                        }
                        if old(self)@.contains(y) {
                            let k = choose|k: int| 0 <= k < old(self)@.len() && old(self)@[k] == y;
                            assert(self@[k] == y);
                        }
                        if y == x {
                            assert(self@[self@.len() - 1] == x);
                        }
                    }
                }
            } else {
                assert(self@.to_set() =~= old(self)@.to_set().insert(x));
            }
        }
        r
    }

    pub fn contains(&self, x: ComponentId) -> (r: bool)
        ensures
            r == self@.contains(x),
    {
        index_set_contains(&self.items, x)
    }

    /// Removes `x` if present, keeping the order of the rest; whether it was
    /// present.
    pub fn remove(&mut self, x: ComponentId) -> (r: bool)
        requires
            old(self).wf(),
        ensures
            final(self).wf(),
            r == old(self)@.contains(x),
            final(self)@ == old(self)@.remove_value(x),
            final(self)@.to_set() == old(self)@.to_set().remove(x),
    {
        let r = index_set_shift_remove(&mut self.items, x);
        proof {
            lemma_remove_value_unique(old(self)@, x);
        }
        r
    }

    pub fn len(&self) -> (r: usize)
        ensures
            r == self@.len(),
    {
        index_set_len(&self.items)
    }

    /// The entry at position `i`.
    pub fn get(&self, i: usize) -> (r: ComponentId)
        requires
            i < self@.len(),
        ensures
            r == self@[i as int],
    {
        match index_set_get_index(&self.items, i) {
            Some(x) => x,
            None => 0,
        }
    }

    /// A copy with the same entries in the same order.
    pub fn duplicate(&self) -> (r: TypeSet)
        ensures
            r@ == self@,
    {
        TypeSet { items: index_set_clone(&self.items) }
    }

    /// A set of the given numbers, each kept once, in first-occurrence order.
    pub fn from_slice(ids: &[ComponentId]) -> (r: TypeSet)
        ensures
            r.wf(),
            r@.to_set() == ids@.to_set(),
    {
        let mut r = TypeSet::new();
        let mut i: usize = 0;
        while i < ids.len()
            invariant
                i <= ids@.len(),
                r.wf(),
                r@.to_set() == ids@.subrange(0, i as int).to_set(),
            decreases ids@.len() - i,
        {
            r.insert(ids[i]);
            proof {
                let s0 = ids@.subrange(0, i as int);
                let s1 = ids@.subrange(0, i as int + 1);
                assert(s1.to_set() =~= s0.to_set().insert(ids@[i as int])) by {
                    assert forall|y: ComponentId| s1.contains(y) <==> (s0.contains(y) || y == ids@[i as int]) by {
                        if s1.contains(y) {
                            let k = choose|k: int| 0 <= k < s1.len() && s1[k] == y;
                            if k < i {
                                assert(s0[k] == y);
                            }
                        }
                        if s0.contains(y) {
                            let k = choose|k: int| 0 <= k < s0.len() && s0[k] == y;
                            assert(s1[k] == y);
                        }
                        if y == ids@[i as int] {
                            assert(s1[i as int] == y);
                        }
                    }
                }
            }
            i += 1;
        }
        assert(ids@.subrange(0, ids@.len() as int) == ids@);
        r
    }
}

proof fn lemma_remove_value_unique(s: Seq<u64>, x: u64)
    requires
        s.no_duplicates(),
    ensures
        s.remove_value(x).no_duplicates(),
        s.remove_value(x).to_set() == s.to_set().remove(x),
{
    if s.contains(x) {
        crate::archetypes::lemma_remove_first_unique(s, x);
    } else {
        s.index_of_first_ensures(x);
        assert(s.remove_value(x) == s);
        assert(s.to_set() =~= s.to_set().remove(x));
    }
}

} // verus!
