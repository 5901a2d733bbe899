//! The arena: a growable dense store of optional values plus a LIFO free list
//! of reusable positions.

use vstd::prelude::*;

use crate::refs::ValueRef;

verus! {

use vstd::pervasive::VecAdditionalExecFns;
use vstd::std_specs::cmp::PartialEqSpec;

/// A [`ValuePool<T>`] stores values addressed by stable [`ValueRef`] handles.
/// Freed positions are kept in a free list and reused most-recently-freed
/// first; removing the trailing occupied slot shrinks the store instead.
#[derive(Debug, Clone)]
pub struct ValuePool<T> {
    store: Vec<Option<T>>,
    open_indices: Vec<usize>,
}

impl<T> ValuePool<T> {
    /// The backing slots: each position either holds a value or is free.
    pub closed spec fn slots(self) -> Seq<Option<T>> {
        self.store@
    }

    /// The free list, oldest first; the last entry is reused next.
    pub closed spec fn free(self) -> Seq<usize> {
        self.open_indices@
    }

    /// The free list is exactly the set of empty positions, each in bounds and
    /// listed once.
    pub open spec fn wf(self) -> bool {
        &&& forall|i: int|
            0 <= i < self.free().len() ==> (#[trigger] self.free()[i]) < self.slots().len()
                && self.slots()[self.free()[i] as int] is None
        &&& forall|i: int, j: int|
            0 <= i < j < self.free().len() ==> self.free()[i] != self.free()[j]
        &&& forall|p: int|
            0 <= p < self.slots().len() && (#[trigger] self.slots()[p]) is None ==> exists|i: int|
                0 <= i < self.free().len() && #[trigger] self.free()[i] == p
    }

    /// The number of stored elements.
    pub open spec fn spec_element_count(self) -> int {
        self.slots().len() - self.free().len()
    }

    /// The value stored at `reference`, if the position is in bounds and occupied.
    pub open spec fn spec_get(self, reference: ValueRef<T>) -> Option<T> {
        if 0 <= reference.pos() < self.slots().len() {
            self.slots()[reference.pos()]
        } else {
            None
        }
    }

    /// Whether an item is stored at `reference`.
    pub open spec fn spec_has_item(self, reference: ValueRef<T>) -> bool {
        self.spec_get(reference) is Some
    }

    /// The position the next push will fill.
    pub open spec fn spec_next_pos(self) -> int {
        if self.free().len() > 0 {
            self.free().last() as int
        } else {
            self.slots().len() as int
        }
    }

    /// In a well-formed pool there are at least as many slots as free entries.
    pub proof fn lemma_free_len_bounded(self)
        requires
            self.wf(),
        ensures
            self.free().len() <= self.slots().len(),
            self.spec_element_count() >= 0,
    {
        broadcast use vstd::seq_lib::group_seq_properties, vstd::set_lib::group_set_lib_default, vstd::set::group_set_axioms;

        let f = self.free().map_values(|x: usize| x as int);
        assert(f.no_duplicates()) by {
            assert forall|i: int, j: int| 0 <= i < f.len() && 0 <= j < f.len() && i != j implies f[i]
                != f[j] by {
                if i < j {
                    assert(self.free()[i] != self.free()[j]);
                } else {
                    assert(self.free()[j] != self.free()[i]);
                }
            }
        }
        f.unique_seq_to_set();
        let n = self.slots().len() as int;
        let range = vstd::set_lib::set_int_range(0, n);
        vstd::set_lib::lemma_int_range(0, n);
        assert(f.to_set().subset_of(range)) by {
            assert forall|x: int| f.to_set().contains(x) implies range.contains(x) by {
                let i = choose|i: int| 0 <= i < f.len() && f[i] == x;
                assert(self.free()[i] < self.slots().len());
            }
        }
        vstd::set_lib::lemma_len_subset(f.to_set(), range);
    }

    /// Creates a new [`ValuePool`] that can store `capacity` many items
    /// before reallocating.
    pub fn with_capacity(capacity: usize) -> (r: ValuePool<T>)
        ensures
            r.slots() == Seq::<Option<T>>::empty(),
            r.free() == Seq::<usize>::empty(),
            r.wf(),
    {
        ValuePool { store: Vec::with_capacity(capacity), open_indices: Vec::with_capacity(capacity / 4) }
    }

    /// Creates a new, empty [`ValuePool`].
    pub fn new() -> (r: ValuePool<T>)
        ensures
            r.slots() == Seq::<Option<T>>::empty(),
            r.free() == Seq::<usize>::empty(),
            r.wf(),
    {
        ValuePool { store: Vec::new(), open_indices: Vec::new() }
    }

    /// Returns the number of elements stored in this pool.
    pub fn element_count(&self) -> (r: usize)
        requires
            self.wf(),
        ensures
            r == self.spec_element_count(),
    {
        proof {
            self.lemma_free_len_bounded();
        }
        self.store.len() - self.open_indices.len()
    }

    /// Returns true if no values are stored.
    pub fn is_empty(&self) -> (r: bool)
        requires
            self.wf(),
        ensures
            r == (self.spec_element_count() == 0),
    {
        self.element_count() == 0
    }

    /// Returns the number of items that can be stored before reallocation
    /// happens.
    pub fn capacity(&self) -> (r: usize)
        ensures
            r >= self.slots().len(),
    {
        vec_capacity(&self.store)
    }

    /// Returns the number of positions that are currently empty and waiting
    /// to be reused by a push.
    pub fn waiting_positions(&self) -> (r: usize)
        ensures
            r == self.free().len(),
    {
        self.open_indices.len()
    }

    /// Checks that `reference` is within the current bounds of the store, so
    /// that the unchecked accessors may be called. They can still find an
    /// empty slot there.
    pub fn is_ref_in_bounce(&self, reference: ValueRef<T>) -> (r: bool)
        ensures
            r == (reference.pos() < self.slots().len()),
    {
        reference.index_value() < self.store.len()
    }

    /// Pushes a new value into the pool, reusing the most recently freed
    /// position if one exists, and returns a reference to it.
    pub fn push(&mut self, value: T) -> (r: ValueRef<T>)
        requires
            old(self).wf(),
        ensures
            final(self).wf(),
            push_effect(*old(self), *final(self), r, value),
    {
        if self.open_indices.len() > 0 {
            let n = self.store.len();
            let index = self.open_indices.pop().unwrap();
            self.store.set(index, Some(value));
            let r = ValueRef::new(index);
            proof {
                let pre = *old(self);
                let post = *self;
                let m = pre.free().len() - 1;
                assert forall|k: int|
                    0 <= k < post.free().len() implies (#[trigger] post.free()[k])
                    < post.slots().len() && post.slots()[post.free()[k] as int] is None by {
                    assert(post.free()[k] == pre.free()[k]);
                    assert(pre.free()[k] != pre.free()[m]);
                }
                assert forall|p: int|
                    0 <= p < post.slots().len() && (#[trigger] post.slots()[p]) is None
                    implies exists|i: int|
                    0 <= i < post.free().len() && #[trigger] post.free()[i] == p by {
                    assert(pre.slots()[p] is None);
                    let k = choose|k: int| 0 <= k < pre.free().len() && pre.free()[k] == p;
                    assert(k != m);
                    assert(post.free()[k] == p);
                }
            }
            r
        } else {
            self.store.push(Some(value));
            let r = ValueRef::new(self.store.len() - 1);
            proof {
                let pre = *old(self);
                let post = *self;
                assert forall|p: int|
                    0 <= p < post.slots().len() && (#[trigger] post.slots()[p]) is None
                    implies exists|i: int|
                    0 <= i < post.free().len() && #[trigger] post.free()[i] == p by {
                    assert(pre.slots()[p] is None);
                }
            }
            r
        }
    }

    /// Removes the item at `reference`, if any. The trailing position is
    /// dropped entirely; any other position is marked free for reuse. Does
    /// nothing if no item is stored there.
    pub fn remove(&mut self, reference: ValueRef<T>)
        requires
            old(self).wf(),
        ensures
            final(self).wf(),
            remove_effect(*old(self), *final(self), reference),
    {
        if !self.has_item(reference) {
            return ;
        }
        let n = self.store.len();
        if reference.index_value() + 1 == n {
            let _ = self.store.pop();
            proof {
                let pre = *old(self);
                let post = *self;
                assert forall|k: int|
                    0 <= k < post.free().len() implies (#[trigger] post.free()[k])
                    < post.slots().len() && post.slots()[post.free()[k] as int] is None by {
                    assert(pre.slots()[pre.free()[k] as int] is None);
                    assert(pre.free()[k] != reference.pos());
                }
                assert forall|p: int|
                    0 <= p < post.slots().len() && (#[trigger] post.slots()[p]) is None
                    implies exists|i: int|
                    0 <= i < post.free().len() && #[trigger] post.free()[i] == p by {
                    assert(pre.slots()[p] is None);
                }
            }
            return ;
        }
        self.store.set(reference.index_value(), None);
        self.open_indices.push(reference.index_value());
        proof {
            lemma_empty_slot_wf(*old(self), *self, reference.pos());
        }
    }

    /// Removes the item at `reference` by relocating the trailing slot into
    /// its place, and returns it. Every reference that pointed at the
    /// trailing slot silently points at the wrong element afterwards, and the
    /// free list is only kept intact when both slots were occupied.
    pub fn remove_full(&mut self, reference: ValueRef<T>) -> (r: Option<T>)
        requires
            old(self).wf(),
            0 <= reference.pos() < old(self).slots().len(),
        ensures
            r == old(self).slots()[reference.pos()],
            final(self).slots() == old(self).slots().update(
                reference.pos(),
                old(self).slots().last(),
            ).drop_last(),
            final(self).free() == old(self).free(),
            (old(self).slots()[reference.pos()] is Some && old(self).slots().last() is Some)
                ==> final(self).wf(),
    {
        let r = self.store.swap_remove(reference.index_value());
        proof {
            if old(self).slots()[reference.pos()] is Some && old(self).slots().last() is Some {
                assert forall|k: int|
                    0 <= k < self.free().len() implies (#[trigger] self.free()[k])
                    < self.slots().len() && self.slots()[self.free()[k] as int] is None by {
                    assert(old(self).slots()[old(self).free()[k] as int] is None);
                }
                assert forall|p: int|
                    0 <= p < self.slots().len() && (#[trigger] self.slots()[p]) is None
                        implies exists|i: int|
                    0 <= i < self.free().len() && #[trigger] self.free()[i] == p by {
                    assert(old(self).slots()[p] is None);
                    let k = choose|k: int|
                        0 <= k < old(self).free().len() && old(self).free()[k] == p;
                    assert(self.free()[k] == p);
                }
            }
        }
        r
    }

    /// Gets a borrow of the item pointed to by `reference` if it exists.
    pub fn get(&self, reference: ValueRef<T>) -> (r: Option<&T>)
        ensures
            match r {
                Some(v) => self.spec_get(reference) == Some(*v),
                None => self.spec_get(reference) is None,
            },
    {
        if reference.index_value() < self.store.len() {
            self.store[reference.index_value()].as_ref()
        } else {
            None
        }
    }

    /// Gets a borrow of the item at `reference`, which must be within the
    /// bounds of the store (see [`ValuePool::is_ref_in_bounce`]). The slot
    /// can still be empty.
    pub fn get_unchecked(&self, reference: ValueRef<T>) -> (r: Option<&T>)
        requires
            0 <= reference.pos() < self.slots().len(),
        ensures
            match r {
                Some(v) => self.spec_get(reference) == Some(*v),
                None => self.spec_get(reference) is None,
            },
    {
        self.store[reference.index_value()].as_ref()
    }

    /// Gets a mutable borrow of the item pointed to by `reference` if it
    /// exists.
    pub fn get_mut(&mut self, reference: ValueRef<T>) -> (r: Option<&mut T>)
        ensures
            match old(self).spec_get(reference) {
                None => r is None && final(self).slots() == old(self).slots() && final(self).free() == old(self).free(),
                Some(v) => r is Some && *r.unwrap() == v && final(self).slots() == old(self).slots().update(reference.pos(), Some(*final(r.unwrap()))) && final(self).free()
                    == old(self).free(),
            },
            old(self).wf() ==> final(self).wf(),
    {
        if reference.index_value() < self.store.len() {
            let slot = &mut self.store[reference.index_value()];
            slot.as_mut()
        } else {
            None
        }
    }

    /// Gets a mutable borrow of the item at `reference`, which must be within
    /// the bounds of the store (see [`ValuePool::is_ref_in_bounce`]). The
    /// slot can still be empty.
    pub fn get_unchecked_mut(&mut self, reference: ValueRef<T>) -> (r: Option<&mut T>)
        requires
            0 <= reference.pos() < old(self).slots().len(),
        ensures
            match old(self).spec_get(reference) {
                None => r is None && final(self).slots() == old(self).slots() && final(self).free() == old(self).free(),
                Some(v) => r is Some && *r.unwrap() == v && final(self).slots() == old(self).slots().update(reference.pos(), Some(*final(r.unwrap()))) && final(self).free()
                    == old(self).free(),
            },
            old(self).wf() ==> final(self).wf(),
    {
        let slot = &mut self.store[reference.index_value()];
        slot.as_mut()
    }

    /// Exchanges the values stored at `ref_1` and `ref_2` in place. Every
    /// other reference equal to one of the two now observes the other's
    /// value; the free list is only kept intact when the two slots are both
    /// occupied or both free.
    pub fn swap(&mut self, ref_1: ValueRef<T>, ref_2: ValueRef<T>) -> (r: Option<
        (ValueRef<T>, ValueRef<T>),
    >)
        ensures
            (r is Some) == (0 <= ref_1.pos() < old(self).slots().len() && 0 <= ref_2.pos() < old(self).slots().len()),
            r is None ==> final(self).slots() == old(self).slots() && final(self).free() == old(self).free(),
            r is Some ==> r.unwrap() == (ref_2, ref_1) && final(self).slots() == old(self).slots().update(ref_1.pos(), old(self).slots()[ref_2.pos()]).update(
                ref_2.pos(),
                old(self).slots()[ref_1.pos()],
            ) && final(self).free() == old(self).free(),
            old(self).wf() && (r is Some ==> (old(self).slots()[ref_1.pos()] is Some <==> old(self).slots()[ref_2.pos()] is Some)) ==> final(self).wf(),
    {
        if ref_1.index_value() >= self.store.len() || ref_2.index_value() >= self.store.len() {
            return None;
        }
        if ref_1.index_value() == ref_2.index_value() {
            proof {
                assert(self.slots() =~= old(self).slots().update(
                    ref_1.pos(),
                    old(self).slots()[ref_2.pos()],
                ).update(ref_2.pos(), old(self).slots()[ref_1.pos()]));
            }
            return Some((ref_2, ref_1));
        }
        let mut tmp: Option<T> = None;
        self.store.set_and_swap(ref_1.index_value(), &mut tmp);
        self.store.set_and_swap(ref_2.index_value(), &mut tmp);
        self.store.set_and_swap(ref_1.index_value(), &mut tmp);
        proof {
            assert(self.slots() =~= old(self).slots().update(
                ref_1.pos(),
                old(self).slots()[ref_2.pos()],
            ).update(ref_2.pos(), old(self).slots()[ref_1.pos()]));
            if old(self).wf() && (old(self).slots()[ref_1.pos()] is Some <==> old(self).slots()[
                ref_2.pos()
            ] is Some) {
                assert forall|k: int|
                    0 <= k < self.free().len() implies (#[trigger] self.free()[k])
                    < self.slots().len() && self.slots()[self.free()[k] as int] is None by {
                    assert(old(self).slots()[old(self).free()[k] as int] is None);
                }
                assert forall|p: int|
                    0 <= p < self.slots().len() && (#[trigger] self.slots()[p]) is None
                        implies exists|i: int|
                    0 <= i < self.free().len() && #[trigger] self.free()[i] == p by {
                    assert(old(self).slots()[p] is None);
                    let k = choose|k: int|
                        0 <= k < old(self).free().len() && old(self).free()[k] == p;
                    assert(self.free()[k] == p);
                }
            }
        }
        Some((ref_2, ref_1))
    }

    /// Returns the reference the next call to [`ValuePool::push`] will
    /// return.
    pub fn next_push_ref(&self) -> (r: ValueRef<T>)
        requires
            self.wf(),
            self.slots().len() < usize::MAX,
        ensures
            r.pos() == self.spec_next_pos(),
    {
        if self.open_indices.len() == 0 {
            return ValueRef::new(self.store.len());
        }
        ValueRef::new(self.open_indices[self.open_indices.len() - 1])
    }

    /// Takes the value at `reference` out of the pool and returns it. Calling
    /// it again with the same reference, without pushing in between, returns
    /// nothing.
    pub fn take(&mut self, reference: ValueRef<T>) -> (r: Option<T>)
        requires
            old(self).wf(),
        ensures
            final(self).wf(),
            take_effect(*old(self), *final(self), reference, r),
    {
        if reference.index_value() >= self.store.len() {
            return None;
        }
        let mut tmp: Option<T> = None;
        self.store.set_and_swap(reference.index_value(), &mut tmp);
        if tmp.is_some() {
            self.open_indices.push(reference.index_value());
            proof {
                lemma_empty_slot_wf(*old(self), *self, reference.pos());
            }
        } else {
            proof {
                lemma_rewrite_none_wf(*old(self), *self, reference.pos());
            }
        }
        tmp
    }

    /// Takes the value at `reference` out of the pool and returns it. The
    /// reference must be within the bounds of the store (see
    /// [`ValuePool::is_ref_in_bounce`]); the slot can still be empty.
    pub fn take_unchecked(&mut self, reference: ValueRef<T>) -> (r: Option<T>)
        requires
            old(self).wf(),
            0 <= reference.pos() < old(self).slots().len(),
        ensures
            final(self).wf(),
            take_effect(*old(self), *final(self), reference, r),
    {
        let mut tmp: Option<T> = None;
        self.store.set_and_swap(reference.index_value(), &mut tmp);
        if tmp.is_some() {
            self.open_indices.push(reference.index_value());
            proof {
                lemma_empty_slot_wf(*old(self), *self, reference.pos());
            }
        } else {
            proof {
                lemma_rewrite_none_wf(*old(self), *self, reference.pos());
            }
        }
        tmp
    }

    /// Ensures at least `additional` more elements can be stored without
    /// reallocation.
    pub fn reserve(&mut self, additional: usize)
        ensures
            final(self).slots() == old(self).slots(),
            final(self).free() == old(self).free(),
    {
        self.store.reserve(additional);
    }

    /// Returns true if an item is stored at `reference`.
    pub fn has_item(&self, reference: ValueRef<T>) -> (r: bool)
        ensures
            r == self.spec_has_item(reference),
    {
        self.get(reference).is_some()
    }

    /// Clears the pool, dropping all stored values and free positions.
    pub fn clear(&mut self)
        ensures
            final(self).slots() == Seq::<Option<T>>::empty(),
            final(self).free() == Seq::<usize>::empty(),
            final(self).wf(),
    {
        self.open_indices.clear();
        self.store.clear();
    }
}

impl<T: PartialEq> ValuePool<T> {
    /// Whether the slot at position `p` holds an element equal to `value`.
    pub open spec fn spec_matches_at(self, value: T, p: int) -> bool {
        self.slots()[p] matches Some(x) && x.eq_spec(&value)
    }

    /// If an equal value is stored, returns the reference to the first
    /// position holding one.
    pub fn find(&self, value: &T) -> (r: Option<ValueRef<T>>)
        ensures
            <T as vstd::std_specs::cmp::PartialEqSpec>::obeys_eq_spec() ==> match r {
                Some(rf) => 0 <= rf.pos() < self.slots().len() && self.spec_matches_at(
                    *value,
                    rf.pos(),
                ) && forall|q: int| 0 <= q < rf.pos() ==> !self.spec_matches_at(*value, q),
                None => forall|q: int|
                    0 <= q < self.slots().len() ==> !self.spec_matches_at(*value, q),
            },
    {
        let mut i: usize = 0;
        while i < self.store.len()
            invariant
                0 <= i <= self.slots().len(),
                <T as vstd::std_specs::cmp::PartialEqSpec>::obeys_eq_spec() ==> forall|q: int|
                    0 <= q < i ==> !self.spec_matches_at(*value, q),
            decreases self.slots().len() - i,
        {
            match &self.store[i] {
                Some(x) => {
                    if x == value {
                        return Some(ValueRef::new(i));
                    }
                },
                None => {},
            }
            i = i + 1;
        }
        None
    }
}

impl<T> Default for ValuePool<T> {
    fn default() -> (r: Self)
        ensures
            r.slots() == Seq::<Option<T>>::empty(),
            r.free() == Seq::<usize>::empty(),
            r.wf(),
    {
        Self::new()
    }
}

/// Describes what a successful [`ValuePool::push`] did: the returned
/// reference points at the most recently freed position if one was waiting,
/// else at a fresh slot appended at the end.
pub open spec fn push_effect<T>(
    pre: ValuePool<T>,
    post: ValuePool<T>,
    r: ValueRef<T>,
    value: T,
) -> bool {
    &&& r.pos() == pre.spec_next_pos()
    &&& if pre.free().len() > 0 {
        post.slots() == pre.slots().update(r.pos(), Some(value)) && post.free()
            == pre.free().drop_last()
    } else {
        post.slots() == pre.slots().push(Some(value)) && post.free() == pre.free()
    }
}

/// Describes what [`ValuePool::take`] did: the returned value is whatever was
/// stored at the reference, the slot is empty afterwards, and the position
/// joins the free list exactly when something was taken.
pub open spec fn take_effect<T>(
    pre: ValuePool<T>,
    post: ValuePool<T>,
    r: ValueRef<T>,
    out: Option<T>,
) -> bool {
    &&& out == pre.spec_get(r)
    &&& post.slots() == if 0 <= r.pos() < pre.slots().len() {
        pre.slots().update(r.pos(), None)
    } else {
        pre.slots()
    }
    &&& post.free() == if out is Some {
        pre.free().push(r.pos() as usize)
    } else {
        pre.free()
    }
}

/// Describes what [`ValuePool::remove`] did: nothing when the slot held no
/// item; dropping the trailing slot when the item was stored last; otherwise
/// marking the position free.
pub open spec fn remove_effect<T>(pre: ValuePool<T>, post: ValuePool<T>, r: ValueRef<T>) -> bool {
    if !pre.spec_has_item(r) {
        post.slots() == pre.slots() && post.free() == pre.free()
    } else if r.pos() + 1 == pre.slots().len() {
        post.slots() == pre.slots().drop_last() && post.free() == pre.free()
    } else {
        post.slots() == pre.slots().update(r.pos(), None) && post.free() == pre.free().push(
            r.pos() as usize,
        )
    }
}

/// The slot sequence of a pool comes from a vector, so its length fits in a
/// machine word.
proof fn lemma_slots_len_bound<T>(pool: ValuePool<T>)
    ensures
        pool.slots().len() <= usize::MAX,
{
    vstd::std_specs::vec::axiom_spec_len(&pool.store);
}

/// Emptying an occupied slot and recording its position in the free list
/// keeps the pool well-formed.
proof fn lemma_empty_slot_wf<T>(pre: ValuePool<T>, post: ValuePool<T>, p: int)
    requires
        pre.wf(),
        0 <= p < pre.slots().len(),
        pre.slots()[p] is Some,
        post.slots() == pre.slots().update(p, None),
        post.free() == pre.free().push(p as usize),
    ensures
        post.wf(),
{
    lemma_slots_len_bound(pre);
    let m = pre.free().len() as int;
    assert forall|k: int|
        0 <= k < post.free().len() implies (#[trigger] post.free()[k]) < post.slots().len()
        && post.slots()[post.free()[k] as int] is None by {
        if k < m {
            assert(pre.slots()[pre.free()[k] as int] is None);
        }
    }
    assert forall|i: int, j: int|
        0 <= i < j < post.free().len() implies post.free()[i] != post.free()[j] by {
        if j == m {
            assert(pre.slots()[pre.free()[i] as int] is None);
        }
    }
    assert forall|q: int|
        0 <= q < post.slots().len() && (#[trigger] post.slots()[q]) is None implies exists|i: int|
        0 <= i < post.free().len() && #[trigger] post.free()[i] == q by {
        if q == p {
            assert(post.free()[m] == q);
        } else {
            assert(pre.slots()[q] is None);
            let k = choose|k: int| 0 <= k < pre.free().len() && pre.free()[k] == q;
            assert(post.free()[k] == q);
        }
    }
}

/// Writing the empty value over a position that was already empty keeps the
/// pool well-formed when the free list is unchanged.
proof fn lemma_rewrite_none_wf<T>(pre: ValuePool<T>, post: ValuePool<T>, p: int)
    requires
        pre.wf(),
        0 <= p < pre.slots().len(),
        pre.slots()[p] is None,
        post.slots() == pre.slots().update(p, None),
        post.free() == pre.free(),
    ensures
        post.wf(),
{
    assert forall|k: int|
        0 <= k < post.free().len() implies (#[trigger] post.free()[k]) < post.slots().len()
        && post.slots()[post.free()[k] as int] is None by {
        assert(pre.slots()[pre.free()[k] as int] is None);
    }
    assert forall|q: int|
        0 <= q < post.slots().len() && (#[trigger] post.slots()[q]) is None implies exists|i: int|
        0 <= i < post.free().len() && #[trigger] post.free()[i] == q by {
        assert(pre.slots()[q] is None);
        let k = choose|k: int| 0 <= k < pre.free().len() && pre.free()[k] == q;
        assert(post.free()[k] == q);
    }
}

/// Pushing a value and then looking up the returned reference yields exactly
/// that value.
pub proof fn lemma_push_get_round_trip<T>(
    pre: ValuePool<T>,
    post: ValuePool<T>,
    r: ValueRef<T>,
    value: T,
)
    requires
        pre.wf(),
        push_effect(pre, post, r, value),
    ensures
        post.spec_get(r) == Some(value),
{
    if pre.free().len() > 0 {
        assert(pre.free()[pre.free().len() - 1] < pre.slots().len());
    }
}

/// A take returns a value exactly once per occupancy: an immediate second
/// take of the same reference returns nothing.
pub proof fn lemma_take_idempotent<T>(
    pre: ValuePool<T>,
    mid: ValuePool<T>,
    post: ValuePool<T>,
    r: ValueRef<T>,
    out1: Option<T>,
    out2: Option<T>,
)
    requires
        take_effect(pre, mid, r, out1),
        take_effect(mid, post, r, out2),
    ensures
        out1 is Some ==> out2 is None,
{
}

/// A push increases the element count by exactly one.
pub proof fn lemma_push_element_count<T>(
    pre: ValuePool<T>,
    post: ValuePool<T>,
    r: ValueRef<T>,
    value: T,
)
    requires
        pre.wf(),
        push_effect(pre, post, r, value),
    ensures
        post.spec_element_count() == pre.spec_element_count() + 1,
{
    if pre.free().len() > 0 {
        assert(pre.free()[pre.free().len() - 1] < pre.slots().len());
    }
}

/// A take decreases the element count by one exactly when it returns a value.
pub proof fn lemma_take_element_count<T>(
    pre: ValuePool<T>,
    post: ValuePool<T>,
    r: ValueRef<T>,
    out: Option<T>,
)
    requires
        take_effect(pre, post, r, out),
    ensures
        out is Some ==> post.spec_element_count() == pre.spec_element_count() - 1,
        out is None ==> post.spec_element_count() == pre.spec_element_count(),
{
}

/// A remove decreases the element count by one exactly when an item was
/// stored at the reference.
pub proof fn lemma_remove_element_count<T>(pre: ValuePool<T>, post: ValuePool<T>, r: ValueRef<T>)
    requires
        remove_effect(pre, post, r),
    ensures
        pre.spec_has_item(r) ==> post.spec_element_count() == pre.spec_element_count() - 1,
        !pre.spec_has_item(r) ==> post.spec_element_count() == pre.spec_element_count(),
{
}

/// LIFO reuse: after removing an occupied position that is not the trailing
/// one, the next push stores its value at exactly that position.
pub proof fn lemma_lifo_reuse<T>(
    pre: ValuePool<T>,
    mid: ValuePool<T>,
    post: ValuePool<T>,
    r: ValueRef<T>,
    r2: ValueRef<T>,
    value: T,
)
    requires
        pre.wf(),
        pre.spec_has_item(r),
        r.pos() + 1 < pre.slots().len(),
        remove_effect(pre, mid, r),
        push_effect(mid, post, r2, value),
    ensures
        r2.pos() == r.pos(),
        post.spec_get(r) == Some(value),
{
    assert(mid.free().last() == r.pos() as usize);
    lemma_slots_len_bound(pre);
}

/// Relies on `Vec::capacity`: the number of elements the vector can hold
/// without reallocating, which is at least its length.
#[verifier::external_body]
fn vec_capacity<T>(v: &Vec<T>) -> (r: usize)
    ensures
        r >= v@.len(),
{
    v.capacity()
}

} // verus!
