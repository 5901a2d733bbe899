//! The entry type for a pool that counts, at run time, how many index
//! handles are still alive for each stored value.

use vstd::prelude::*;

verus! {

/// A stored value together with the number of index handles that still
/// refer to it; a fresh entry starts with its creating handle counted.
pub struct ValuePoolEntry<T> {
    value: T,
    active_references: usize,
}

impl<T> ValuePoolEntry<T> {
    /// The stored value.
    pub closed spec fn spec_value(self) -> T {
        self.value
    }

    /// How many handles are counted as alive for this entry.
    pub closed spec fn references(self) -> int {
        self.active_references as int
    }

    /// Wraps a value into an entry whose single counted handle is the one
    /// being created for it.
    pub fn new(value: T) -> (r: Self)
        ensures
            r.spec_value() == value,
            r.references() == 1,
    {
        ValuePoolEntry { value, active_references: 1 }
    }
}

} // verus!
