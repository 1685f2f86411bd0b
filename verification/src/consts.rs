//! Architectural constants of the paging and allocation layers.

use vstd::prelude::*;

verus! {

/// Bytes in one physical page frame, and the alignment of every frame.
pub const PAGE_ALIGN: u64 = 4096;

/// The page size constant of the architecture layer: the number of 64-bit
/// words in one page frame, and of entries in one page table.
pub const PAGE_SIZE: u64 = 512;

/// Returns the size of all pages: the page size constant for each of 8
/// words and 3 levels.
pub fn get_pages_size() -> (r: u64)
    ensures
        r == 12288,
{
    get_page_size() * 8 * 3
}

/// Returns the alignment of the pages.
pub fn get_page_align() -> (r: u64)
    ensures
        r == PAGE_ALIGN,
{
    PAGE_ALIGN
}

/// Returns the page size constant.
pub fn get_page_size() -> (r: u64)
    ensures
        r == PAGE_SIZE,
{
    PAGE_SIZE
}

/// The section boundary addresses that the boot environment supplies.
#[derive(Debug, Clone, Copy, PartialEq, Eq, Structural)]
pub struct SectionLayout {
    pub text_start: u64,
    pub text_end: u64,
    pub rodata_start: u64,
    pub rodata_end: u64,
    pub data_start: u64,
    pub data_end: u64,
    pub bss_start: u64,
    pub bss_end: u64,
    pub memory_start: u64,
    pub memory_end: u64,
    pub stack_start: u64,
    pub stack_end: u64,
    pub heap_start: u64,
    pub heap_size: u64,
}

impl SectionLayout {
    /// Every section ends at or after its start, and no address in it is so
    /// high that rounding it up to a page boundary would overflow.
    pub open spec fn ordered(&self) -> bool {
        &&& self.text_start <= self.text_end <= u64::MAX - 4095
        &&& self.rodata_start <= self.rodata_end <= u64::MAX - 4095
        &&& self.data_start <= self.data_end <= u64::MAX - 4095
        &&& self.bss_start <= self.bss_end <= u64::MAX - 4095
        &&& self.stack_start <= self.stack_end <= u64::MAX - 4095
        &&& self.heap_start + self.heap_size <= u64::MAX - 4095
    }

    /// Whether `ordered` holds.
    pub fn is_ordered(&self) -> (r: bool)
        ensures
            r == self.ordered(),
    {
        let top: u64 = u64::MAX - 4095;
        self.text_start <= self.text_end && self.text_end <= top && self.rodata_start
            <= self.rodata_end && self.rodata_end <= top && self.data_start <= self.data_end
            && self.data_end <= top && self.bss_start <= self.bss_end && self.bss_end <= top
            && self.stack_start <= self.stack_end && self.stack_end <= top && self.heap_start <= top
            && self.heap_size <= top - self.heap_start
    }

    /// Returns the size of the kernel stack in bytes.
    pub fn get_stack_size(&self) -> (r: u64)
        requires
            self.stack_start <= self.stack_end,
        ensures
            r == self.stack_end - self.stack_start,
    {
        self.stack_end - self.stack_start
    }
}

} // verus!
