//! A pool wrapper whose index handles carry a lifetime, so that holding one
//! keeps the typed position it was issued for.

use vstd::prelude::*;

use crate::pool::ValuePool;
use crate::refs::ValueRef;

verus! {

use core::marker::PhantomData;

/// An index handle issued by an [`AliveValuePool`], tagged with a lifetime.
#[derive(Debug)]
pub struct AliveIndex<'a, T> {
    idx: ValueRef<T>,
    _phantom: PhantomData<&'a ()>,
}

impl<'a, T> AliveIndex<'a, T> {
    /// The arena position this handle points at.
    pub closed spec fn pos(self) -> int {
        self.idx.pos()
    }
}

impl<'a, T> Clone for AliveIndex<'a, T> {
    fn clone(&self) -> (r: Self)
        ensures
            r.pos() == self.pos(),
    {
        AliveIndex { idx: self.idx, _phantom: PhantomData }
    }
}

impl<'a, T> From<AliveIndex<'a, T>> for ValueRef<T> {
    fn from(value: AliveIndex<'a, T>) -> (r: Self) {
        value.idx
    }
}

impl<'a, T> vstd::std_specs::convert::FromSpecImpl<AliveIndex<'a, T>> for ValueRef<T> {
    open spec fn obeys_from_spec() -> bool {
        true
    }

    closed spec fn from_spec(v: AliveIndex<'a, T>) -> Self {
        v.idx
    }
}

/// A [`ValuePool`] whose values are addressed through [`AliveIndex`]
/// handles; it offers no removal, so a handle stays usable for as long as
/// the pool lives.
pub struct AliveValuePool<T> {
    pool: ValuePool<T>,
}

impl<T> AliveValuePool<T> {
    /// The backing slots of the wrapped pool.
    pub closed spec fn slots(self) -> Seq<Option<T>> {
        self.pool.slots()
    }

    /// The wrapped pool is well-formed.
    pub closed spec fn wf(self) -> bool {
        self.pool.wf()
    }

    /// Position `p` currently holds a value.
    pub open spec fn holds(self, p: int) -> bool {
        0 <= p < self.slots().len() && self.slots()[p] is Some
    }

    /// Creates a new, empty pool.
    pub fn new() -> (r: Self)
        ensures
            r.wf(),
            r.slots() == Seq::<Option<T>>::empty(),
    {
        Self { pool: ValuePool::new() }
    }

    /// Stores `value` and returns a handle for it.
    pub fn push<'a>(&mut self, value: T) -> (r: AliveIndex<'a, T>)
        requires
            old(self).wf(),
        ensures
            final(self).wf(),
            final(self).holds(r.pos()),
            final(self).slots()[r.pos()] == Some(value),
            final(self).slots().len() >= old(self).slots().len(),
            forall|p: int|
                old(self).holds(p) ==> final(self).holds(p) && final(self).slots()[p] == old(
                    self,
                ).slots()[p],
    {
        let ghost pre = self.pool;
        let idx = self.pool.push(value);
        proof {
            crate::pool::lemma_push_get_round_trip(pre, self.pool, idx, value);
            if pre.free().len() > 0 {
                assert(pre.free()[pre.free().len() - 1] < pre.slots().len());
                assert(pre.slots()[idx.pos()] is None);
            }
        }
        AliveIndex { idx, _phantom: PhantomData }
    }

    /// Returns a borrow of the value the handle points at.
    pub fn get<'a>(&self, index: AliveIndex<'a, T>) -> (r: &T)
        requires
            self.holds(index.pos()),
        ensures
            *r == self.slots()[index.pos()].unwrap(),
    {
        self.pool.get(index.idx).unwrap()
    }

    /// Returns a mutable borrow of the value the handle points at.
    pub fn get_mut<'a>(&mut self, index: AliveIndex<'a, T>) -> (r: &mut T)
        requires
            old(self).holds(index.pos()),
        ensures
            *r == old(self).slots()[index.pos()].unwrap(),
            final(self).slots() == old(self).slots().update(index.pos(), Some(*final(r))),
            old(self).wf() ==> final(self).wf(),
    {
        self.pool.get_mut(index.idx).unwrap()
    }

    /// Exchanges the values stored behind the two handles; both handles then
    /// observe the other's value. Handles issued by this pool always point
    /// at stored values, so the exchange happens whenever both positions are
    /// within bounds.
    pub fn swap<'a>(&mut self, index1: AliveIndex<'a, T>, index2: AliveIndex<'a, T>)
        requires
            old(self).wf(),
        ensures
            (old(self).holds(index1.pos()) && old(self).holds(index2.pos())) ==> (final(self).wf()
                && final(self).slots() == old(self).slots().update(
                index1.pos(),
                old(self).slots()[index2.pos()],
            ).update(index2.pos(), old(self).slots()[index1.pos()])),
            (index1.pos() >= old(self).slots().len() || index2.pos() >= old(self).slots().len())
                ==> (final(self).wf() && final(self).slots() == old(self).slots()),
    {
        let _ = self.pool.swap(index1.idx, index2.idx);
    }
}

} // verus!
