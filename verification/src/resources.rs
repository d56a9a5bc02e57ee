//! Resource parameters: shared and exclusive access to one resource, and
//! the accesses they declare for system validation.
use crate::validation::{ComponentId, ParamAccess};
use vstd::prelude::*;

verus! {

/// Shared access to one resource.
pub struct Res<'w, R> {
    pub(crate) val: &'w R,
}

impl<'w, R> Res<'w, R> {
    pub closed spec fn value(&self) -> R {
        *self.val
    }

    pub fn new(val: &'w R) -> (r: Res<'w, R>)
        ensures
            r.value() == *val,
    {
        Res { val }
    }

    pub fn get(&self) -> (r: &R)
        ensures
            *r == self.value(),
    {
        self.val
    }

    /// A shared resource parameter reads the resource `id` and nothing else.
    pub fn get_access(id: ComponentId) -> (r: ParamAccess)
        ensures
            r.res_reads@ == seq![id],
            r.res_writes@.len() == 0,
            r.reads@.len() == 0,
            r.writes@.len() == 0,
            r.with_filters@.len() == 0,
            r.without_filters@.len() == 0,
    {
        let mut access = ParamAccess::new();
        access.res_reads.push(id);
        assert(access.res_reads@ =~= seq![id]);
        access
    }
}

/// Exclusive access to one resource; what is written through `val` is
/// what the resource holds once the handle is gone.
pub struct ResMut<'w, R> {
    pub val: &'w mut R,
}

impl<'w, R> ResMut<'w, R> {
    pub open spec fn value(&self) -> R {
        *self.val
    }

    pub fn new(val: &'w mut R) -> (r: ResMut<'w, R>)
        ensures
            r.value() == *old(val),
            *final(r.val) == *final(val),
    {
        ResMut { val }
    }

    pub fn get(&self) -> (r: &R)
        ensures
            *r == self.value(),
    {
        self.val
    }

    pub fn get_mut(&mut self) -> (r: &mut R)
        ensures
            *r == old(self).value(),
            final(self).value() == *final(r),
            *final(final(self).val) == *final(old(self).val),
    {
        self.val
    }

    /// An exclusive resource parameter writes the resource `id` and
    /// nothing else.
    pub fn get_access(id: ComponentId) -> (r: ParamAccess)
        ensures
            r.res_writes@ == seq![id],
            r.res_reads@.len() == 0,
            r.reads@.len() == 0,
            r.writes@.len() == 0,
            r.with_filters@.len() == 0,
            r.without_filters@.len() == 0,
    {
        let mut access = ParamAccess::new();
        access.res_writes.push(id);
        assert(access.res_writes@ =~= seq![id]);
        access
    }
}


} // verus!
