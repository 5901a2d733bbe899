//! Index handles into a [`ValuePool`](crate::ValuePool): an untyped position
//! and a typed position carrying a phantom element type.
//!
//! A reference stores a plain position; the position `usize::MAX` is reserved
//! so that a reference can always be distinguished from a sentinel.

use vstd::prelude::*;

verus! {

use core::marker::PhantomData;

/// Stores the location of an item in a [`ValuePool`](crate::ValuePool)
/// without remembering the element type. It implements [`Copy`].
#[derive(Debug, Hash, Clone, Copy, PartialEq, Eq, Structural, PartialOrd, Ord)]
pub struct UntypedValueRef {
    index: usize,
}

impl UntypedValueRef {
    /// The position this reference points at.
    pub closed spec fn pos(self) -> int {
        self.index as int
    }

    /// Creates a new [`UntypedValueRef`] for a given index. This is usually not needed.
    pub fn new(index: usize) -> (r: UntypedValueRef)
        requires
            index != usize::MAX,
        ensures
            r.pos() == index,
    {
        UntypedValueRef { index }
    }
}

impl Default for UntypedValueRef {
    fn default() -> (r: Self)
        ensures
            r.pos() == 0,
    {
        UntypedValueRef { index: 0 }
    }
}

/// Stores the location of an item in a [`ValuePool`](crate::ValuePool) as well
/// as the element type. It implements [`Copy`] for every `T`.
#[derive(Debug, Hash, Ord)]
pub struct ValueRef<T> {
    index: usize,
    type_info: PhantomData<T>,
}

impl<T> ValueRef<T> {
    /// The position this reference points at.
    pub closed spec fn pos(self) -> int {
        self.index as int
    }

    /// Creates a new [`ValueRef`] for a given index. This is usually not needed.
    pub fn new(index: usize) -> (r: ValueRef<T>)
        requires
            index != usize::MAX,
        ensures
            r.pos() == index,
    {
        ValueRef { index, type_info: PhantomData }
    }

    /// The stored position, as a machine integer.
    pub(crate) fn index_value(self) -> (r: usize)
        ensures
            r == self.pos(),
    {
        self.index
    }
}

impl<T> Clone for ValueRef<T> {
    fn clone(&self) -> (r: Self)
        ensures
            r == *self,
    {
        *self
    }
}

impl<T> Copy for ValueRef<T> {}

impl<T> PartialEq for ValueRef<T> {
    fn eq(&self, other: &Self) -> (r: bool)
        ensures
            r == (self.pos() == other.pos()),
    {
        self.index == other.index
    }
}

impl<T> Eq for ValueRef<T> {}

impl<T> vstd::std_specs::cmp::PartialEqSpecImpl for ValueRef<T> {
    open spec fn obeys_eq_spec() -> bool {
        true
    }

    open spec fn eq_spec(&self, other: &Self) -> bool {
        self.pos() == other.pos()
    }
}

impl<T> PartialOrd for ValueRef<T> {
    fn partial_cmp(&self, other: &Self) -> (r: Option<core::cmp::Ordering>) {
        if self.index < other.index {
            Some(core::cmp::Ordering::Less)
        } else if self.index == other.index {
            Some(core::cmp::Ordering::Equal)
        } else {
            Some(core::cmp::Ordering::Greater)
        }
    }
}

impl<T> vstd::std_specs::cmp::PartialOrdSpecImpl for ValueRef<T> {
    open spec fn obeys_partial_cmp_spec() -> bool {
        true
    }

    open spec fn partial_cmp_spec(&self, other: &Self) -> Option<core::cmp::Ordering> {
        if self.pos() < other.pos() {
            Some(core::cmp::Ordering::Less)
        } else if self.pos() == other.pos() {
            Some(core::cmp::Ordering::Equal)
        } else {
            Some(core::cmp::Ordering::Greater)
        }
    }
}

impl<T> Default for ValueRef<T> {
    fn default() -> (r: Self)
        ensures
            r.pos() == 0,
    {
        ValueRef { index: 0, type_info: PhantomData }
    }
}

impl<T> From<ValueRef<T>> for UntypedValueRef {
    fn from(value: ValueRef<T>) -> (r: Self) {
        UntypedValueRef { index: value.index }
    }
}

impl<T> vstd::std_specs::convert::FromSpecImpl<ValueRef<T>> for UntypedValueRef {
    open spec fn obeys_from_spec() -> bool {
        true
    }

    closed spec fn from_spec(v: ValueRef<T>) -> Self {
        UntypedValueRef { index: v.index }
    }
}

impl<T> From<UntypedValueRef> for ValueRef<T> {
    fn from(value: UntypedValueRef) -> (r: Self) {
        ValueRef { index: value.index, type_info: PhantomData }
    }
}

impl<T> vstd::std_specs::convert::FromSpecImpl<UntypedValueRef> for ValueRef<T> {
    open spec fn obeys_from_spec() -> bool {
        true
    }

    closed spec fn from_spec(v: UntypedValueRef) -> Self {
        ValueRef { index: v.index, type_info: PhantomData }
    }
}

/// Converting a typed reference to an untyped one keeps the position.
pub proof fn lemma_untyped_from_typed<T>(v: ValueRef<T>)
    ensures
        <UntypedValueRef as vstd::std_specs::convert::FromSpec<ValueRef<T>>>::from_spec(v).pos()
            == v.pos(),
{
}

/// Converting an untyped reference to a typed one keeps the position.
pub proof fn lemma_typed_from_untyped<T>(v: UntypedValueRef)
    ensures
        <ValueRef<T> as vstd::std_specs::convert::FromSpec<UntypedValueRef>>::from_spec(v).pos()
            == v.pos(),
{
}

} // verus!
