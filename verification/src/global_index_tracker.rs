//! The place of an input in the global order of all inputs.

use vstd::prelude::*;

verus! {

/// An input's place in the global order: its index among the inputs and the
/// number of values of all the inputs before it.
#[derive(Debug, Clone, Copy)]
pub struct Offset {
    pub index: usize,
    pub size: usize,
}

impl Offset {
    /// Hands this offset out to an input of `size` values and moves past
    /// that input: the next input gets the next index and starts after these
    /// values.
    pub fn allocate(&mut self, size: usize) -> (r: Offset)
        requires
            old(self).index < usize::MAX,
            old(self).size + size <= usize::MAX,
        ensures
            r == *old(self),
            final(self).index == old(self).index + 1,
            final(self).size == old(self).size + size,
    {
        let result = *self;
        self.index = self.index + 1;
        self.size = self.size + size;
        result
    }
}

} // verus!
