//! The position of an entry in the data file, under its older name.

use vstd::prelude::*;
use crate::storage::persistence::index::EntryPointer;

verus! {

/// Position of a serialized entry in the data file.
#[derive(Debug, Clone, Copy, PartialEq, Eq, Structural)]
pub struct VectorIndex {
    /// Byte offset in the file.
    pub offset: u64,
    /// Size of the serialized entry.
    pub length: u32,
}

impl VectorIndex {
    pub fn new(offset: u64, length: u32) -> (r: Self)
        ensures
            r == (VectorIndex { offset, length }),
    {
        Self { offset, length }
    }

    /// The same position as an entry pointer.
    pub fn pointer(&self) -> (r: EntryPointer)
        ensures
            r == (EntryPointer { offset: self.offset, length: self.length }),
    {
        EntryPointer::new(self.offset, self.length)
    }
}

} // verus!
