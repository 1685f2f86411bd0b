//! A page table: 512 entries, one page frame.

use crate::paging_sv39::entry::Entry;
use vstd::prelude::*;

verus! {

/// Entries in one table.
pub const TABLE_ENTRIES: usize = 512;

pub struct Table {
    pub entries: [Entry; 512],
}

impl Table {
    /// A table in which every entry is zero, as a zeroed frame holds it.
    pub fn new() -> (r: Self)
        ensures
            forall|i: int| 0 <= i < 512 ==> (#[trigger] r.entries[i]).0 == 0,
    {
        Table { entries: [Entry(0);512] }
    }

    pub fn len(&self) -> (r: usize)
        ensures
            r == 512,
    {
        self.entries.len()
    }
}

} // verus!
