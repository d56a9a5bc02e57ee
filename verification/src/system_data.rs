//! Data that a system keeps between runs, one value per kind number.
use crate::validation::ComponentId;
use std::collections::HashMap;
use vstd::prelude::*;

verus! {

broadcast use vstd::std_specs::hash::group_hash_axioms;

/// `HashMap::get_mut`: the value stored under `k`, for writing; what is
/// written through the reference is what the map holds under `k`
/// afterwards, and nothing else in the map changes.
#[verifier::external_body]
pub(crate) fn map_get_mut<'a, T>(m: &'a mut HashMap<ComponentId, T>, k: &ComponentId) -> (r: &'a mut T)
    requires
        old(m)@.contains_key(*k),
    ensures
        *r == old(m)@[*k],
        final(m)@ == old(m)@.insert(*k, *final(r)),
{
    m.get_mut(k).unwrap()
}

/// Raw access to a system's stored data.
pub trait SystemData<D> {
    spec fn spec_data(&self) -> Map<ComponentId, D>;

    fn get_raw_data(&self, id: ComponentId) -> (r: Option<&D>)
        ensures
            match r {
                Some(v) => self.spec_data().contains_key(id) && *v == self.spec_data()[id],
                None => !self.spec_data().contains_key(id),
            },
    ;

    fn insert_raw_data(&mut self, id: ComponentId, value: D)
        ensures
            final(self).spec_data() == old(self).spec_data().insert(id, value),
    ;
}

/// Stored data with a default made on first use.
pub trait SystemExt<D>: SystemData<D> {
    /// The value under `id`, stored as `init` first if there was none.
    fn get_or_init(&mut self, id: ComponentId, init: D) -> (r: &D)
        ensures
            final(self).spec_data() == if old(self).spec_data().contains_key(id) {
                old(self).spec_data()
            } else {
                old(self).spec_data().insert(id, init)
            },
            *r == final(self).spec_data()[id],
    ;
}

/// The data of one function system, by kind number.
pub struct FunctionData<D> {
    pub(crate) data: HashMap<ComponentId, D>,
}

impl<D> FunctionData<D> {
    pub fn new() -> (r: FunctionData<D>)
        ensures
            r.spec_data() == Map::<ComponentId, D>::empty(),
    {
        FunctionData { data: HashMap::new() }
    }

    /// The value under `id`, if there is one.
    pub fn get_data(&self, id: ComponentId) -> (r: Option<&D>)
        ensures
            match r {
                Some(v) => self.spec_data().contains_key(id) && *v == self.spec_data()[id],
                None => !self.spec_data().contains_key(id),
            },
    {
        self.data.get(&id)
    }

    /// The value under `id`, if there is one, for writing.
    pub fn get_data_mut(&mut self, id: ComponentId) -> (r: Option<&mut D>)
        ensures
            match r {
                Some(v) => {
                    &&& old(self).spec_data().contains_key(id)
                    &&& *v == old(self).spec_data()[id]
                    &&& final(self).spec_data() == old(self).spec_data().insert(id, *final(v))
                },
                None => !old(self).spec_data().contains_key(id) && final(self).spec_data() == old(
                    self,
                ).spec_data(),
            },
    {
        if self.data.contains_key(&id) {
            Some(map_get_mut(&mut self.data, &id))
        } else {
            None
        }
    }

    /// Stores `value` under `id`, replacing what was there.
    pub fn insert(&mut self, id: ComponentId, value: D)
        ensures
            final(self).spec_data() == old(self).spec_data().insert(id, value),
    {
        self.data.insert(id, value);
    }

    /// The value under `id`, stored as `init` first if there was none, for
    /// writing.
    pub fn get_or_init_mut(&mut self, id: ComponentId, init: D) -> (r: &mut D)
        ensures
            *r == if old(self).spec_data().contains_key(id) {
                old(self).spec_data()[id]
            } else {
                init
            },
            final(self).spec_data() == old(self).spec_data().insert(id, *final(r)),
    {
        if !self.data.contains_key(&id) {
            self.data.insert(id, init);
        }
        map_get_mut(&mut self.data, &id)
    }
}

impl<D> SystemData<D> for FunctionData<D> {
    closed spec fn spec_data(&self) -> Map<ComponentId, D> {
        self.data@
    }

    fn get_raw_data(&self, id: ComponentId) -> (r: Option<&D>) {
        self.data.get(&id)
    }

    fn insert_raw_data(&mut self, id: ComponentId, value: D) {
        self.data.insert(id, value);
    }
}

impl<D> SystemExt<D> for FunctionData<D> {
    fn get_or_init(&mut self, id: ComponentId, init: D) -> (r: &D) {
        if !self.data.contains_key(&id) {
            self.data.insert(id, init);
        }
        self.data.get(&id).unwrap()
    }
}

} // verus!
