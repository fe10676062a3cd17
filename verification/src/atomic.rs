//! The values that the tables store.

use vstd::prelude::*;

verus! {

/// A value that a table can store. Every such type has a distinguished
/// empty value: fresh slots hold it, and a write that replaces it reports
/// no previous value.
pub trait AsAtomic: Sized + Copy {
    /// The value that an unused slot holds.
    spec fn spec_empty() -> Self;

    /// Returns the empty value.
    fn empty() -> (r: Self)
        ensures
            r == Self::spec_empty(),
    ;

    /// Whether this is the empty value.
    fn is_empty_value(&self) -> (r: bool)
        ensures
            r == (*self == Self::spec_empty()),
    ;
}

impl AsAtomic for usize {
    open spec fn spec_empty() -> usize {
        0
    }

    fn empty() -> (r: usize) {
        0
    }

    fn is_empty_value(&self) -> (r: bool) {
        *self == 0
    }
}

} // verus!
