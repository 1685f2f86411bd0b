//! One-byte descriptors of physical page frames.

use vstd::prelude::*;

verus! {

/// Flag bits of a page descriptor.
#[derive(Debug, Clone, Copy)]
pub enum PageBits {
    Empty,
    Taken,
    Last,
    /// The final page of an allocation: taken and last.
    TakenLast,
}

impl PageBits {
    /// The byte that this flag set stands for.
    pub open spec fn spec_bits(self) -> u8 {
        match self {
            PageBits::Empty => 0,
            PageBits::Taken => 1,
            PageBits::Last => 2,
            PageBits::TakenLast => 3,
        }
    }

    pub fn bits(self) -> (r: u8)
        ensures
            r == self.spec_bits(),
    {
        match self {
            PageBits::Empty => 0,
            PageBits::Taken => 1,
            PageBits::Last => 2,
            PageBits::TakenLast => 3,
        }
    }
}

/// Whether the taken bit is set in a descriptor byte.
pub open spec fn flags_taken(flags: u8) -> bool {
    flags & 1 != 0
}

/// Whether the last bit is set in a descriptor byte.
pub open spec fn flags_last(flags: u8) -> bool {
    flags & 2 != 0
}

/// What the bit tests say of the three descriptor bytes that an allocator
/// ever writes, and how setting flags on an empty descriptor comes out.
pub proof fn lemma_descriptor_bytes()
    ensures
        !flags_taken(0) && !flags_last(0),
        flags_taken(1) && !flags_last(1),
        flags_taken(3) && flags_last(3),
        0u8 | 1u8 == 1u8,
        0u8 | 3u8 == 3u8,
{
    assert(0u8 & 1 == 0 && 0u8 & 2 == 0 && 1u8 & 1 == 1 && 1u8 & 2 == 0 && 3u8 & 1 == 1 && 3u8 & 2
        == 2 && 0u8 | 1u8 == 1u8 && 0u8 | 3u8 == 3u8) by (bit_vector);
}

/// The descriptor of one physical page frame.
#[derive(Debug, Clone, Copy)]
pub struct Page {
    pub flags: u8,
}

impl Page {
    /// Check if the second bit (Last bit) of the page is set to 1.
    pub fn is_last(&self) -> (r: bool)
        ensures
            r == flags_last(self.flags),
    {
        self.flags & PageBits::Last.bits() != 0
    }

    /// Check if the first bit (Taken bit) of the page is set to 1.
    pub fn is_taken(&self) -> (r: bool)
        ensures
            r == flags_taken(self.flags),
    {
        self.flags & PageBits::Taken.bits() != 0
    }

    /// Check if the first bit (Taken bit) of the page is set to 0.
    pub fn is_free(&self) -> (r: bool)
        ensures
            r == !flags_taken(self.flags),
    {
        !self.is_taken()
    }

    /// Clears all flags of the page.
    pub fn clear(&mut self)
        ensures
            final(self).flags == 0,
    {
        self.flags = PageBits::Empty.bits();
    }

    /// Sets the specified flags of the page.
    pub fn set_flag(&mut self, flag: PageBits)
        ensures
            final(self).flags == old(self).flags | flag.spec_bits(),
    {
        self.flags = self.flags | flag.bits();
    }

    /// Clears the specified flags of the page.
    pub fn clear_flag(&mut self, flag: PageBits)
        ensures
            final(self).flags == old(self).flags & !flag.spec_bits(),
    {
        self.flags = self.flags & !flag.bits();
    }
}

} // verus!
