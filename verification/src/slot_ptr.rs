//! Positions in the ring.

use vstd::prelude::*;
use vstd::std_specs::convert::FromSpecImpl;

verus! {

/// A position between two slots: `cl_offset` slots into cache line `cl_index`.
///
/// The end of a line and the start of the next one are two ways to write the
/// same place. Moving on is lazy: a pointer that has used up its line stays at
/// the end of it until there is a reason to enter the next one.
#[derive(Clone, Copy, Debug, PartialEq, Eq, Structural)]
pub struct SlotPtr {
    pub cl_index: usize,
    pub cl_offset: usize,
}

impl From<(usize, usize)> for SlotPtr {
    fn from(pair: (usize, usize)) -> (ptr: Self) {
        SlotPtr { cl_index: pair.0, cl_offset: pair.1 }
    }
}

impl FromSpecImpl<(usize, usize)> for SlotPtr {
    open spec fn obeys_from_spec() -> bool {
        true
    }

    open spec fn from_spec(pair: (usize, usize)) -> Self {
        SlotPtr { cl_index: pair.0, cl_offset: pair.1 }
    }
}

impl SlotPtr {
    /// Moves the pointer.
    pub fn set(&mut self, cl_index: usize, cl_offset: usize)
        ensures
            *final(self) == (SlotPtr { cl_index, cl_offset }),
    {
        self.cl_index = cl_index;
        self.cl_offset = cl_offset;
    }
}

} // verus!
