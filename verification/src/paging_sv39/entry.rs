//! Page table entries and their bit layout.

use vstd::prelude::*;

verus! {

/// Flag bits of a page table entry, and the usual combinations.
#[derive(Debug, Clone, Copy)]
pub enum EntryBits {
    Empty,
    Valid,
    Read,
    Write,
    Execute,
    User,
    Global,
    Accessed,
    Dirty,
    ReadWrite,
    ReadExecute,
    ReadWriteExecute,
    UserReadWrite,
    UserReadExecute,
    UserReadWriteExecute,
}

impl EntryBits {
    /// The bits of the flag set: valid is bit 0, read 1, write 2, execute 3,
    /// user 4, global 5, accessed 6, dirty 7.
    pub open spec fn spec_bits(self) -> i64 {
        match self {
            EntryBits::Empty => 0,
            EntryBits::Valid => 1,
            EntryBits::Read => 2,
            EntryBits::Write => 4,
            EntryBits::Execute => 8,
            EntryBits::User => 16,
            EntryBits::Global => 32,
            EntryBits::Accessed => 64,
            EntryBits::Dirty => 128,
            EntryBits::ReadWrite => 6,
            EntryBits::ReadExecute => 10,
            EntryBits::ReadWriteExecute => 14,
            EntryBits::UserReadWrite => 22,
            EntryBits::UserReadExecute => 26,
            EntryBits::UserReadWriteExecute => 30,
        }
    }

    pub fn bits(self) -> (r: i64)
        ensures
            r == self.spec_bits(),
    {
        match self {
            EntryBits::Empty => 0,
            EntryBits::Valid => 1,
            EntryBits::Read => 2,
            EntryBits::Write => 4,
            EntryBits::Execute => 8,
            EntryBits::User => 16,
            EntryBits::Global => 32,
            EntryBits::Accessed => 64,
            EntryBits::Dirty => 128,
            EntryBits::ReadWrite => 6,
            EntryBits::ReadExecute => 10,
            EntryBits::ReadWriteExecute => 14,
            EntryBits::UserReadWrite => 22,
            EntryBits::UserReadExecute => 26,
            EntryBits::UserReadWriteExecute => 30,
        }
    }
}

/// Whether the valid bit of an entry is set.
pub open spec fn entry_valid(e: i64) -> bool {
    e & 1 != 0
}

/// Whether an entry grants any of read, write and execute: a leaf.
pub open spec fn entry_leaf(e: i64) -> bool {
    e & 14 != 0
}

/// One slot of a page table.
#[derive(Debug, Clone, Copy)]
pub struct Entry(pub i64);

impl Entry {
    /// An entry with the given bits.
    pub fn new(entry: i64) -> (r: Self)
        ensures
            r.0 == entry,
    {
        Entry(entry)
    }

    pub fn get(&self) -> (r: i64)
        ensures
            r == self.0,
    {
        self.0
    }

    pub fn set(&mut self, entry: i64)
        ensures
            final(self).0 == entry,
    {
        self.0 = entry;
    }

    /// Check if the first bit (V bit) of the entry is set to 1.
    pub fn is_valid(&self) -> (r: bool)
        ensures
            r == entry_valid(self.0),
    {
        self.get() & EntryBits::Valid.bits() != 0
    }

    /// Check if the first bit (V bit) of the entry is set to 0.
    pub fn is_invalid(&self) -> (r: bool)
        ensures
            r == !entry_valid(self.0),
    {
        !self.is_valid()
    }

    /// Check if the entry is a leaf entry.
    /// A leaf entry is an entry that has
    /// any of its R, W, or X bits set to 1.
    pub fn is_leaf(&self) -> (r: bool)
        ensures
            r == entry_leaf(self.0),
    {
        self.get() & EntryBits::ReadWriteExecute.bits() != 0
    }

    /// Check if the entry is a branch entry.
    /// A branch entry is an entry that has its
    /// R, W, and X bits set to 0.
    pub fn is_branch(&self) -> (r: bool)
        ensures
            r == !entry_leaf(self.0),
    {
        !self.is_leaf()
    }
}

/// The 9-bit index into the table of level 0, 1 or 2 that a virtual address
/// selects.
pub open spec fn vpn(vaddr: u64, level: int) -> u64 {
    if level == 0 {
        (vaddr >> 12) & 0x1ff
    } else if level == 1 {
        (vaddr >> 21) & 0x1ff
    } else {
        (vaddr >> 30) & 0x1ff
    }
}

/// The entry that points to the table in the page frame at `page`.
pub open spec fn branch_entry(page: u64) -> i64 {
    ((page as i64) >> 2) | 1
}

/// The address that a branch entry points to.
pub open spec fn entry_target(e: i64) -> u64 {
    ((e & !0x3ffi64) << 2) as u64
}

/// The leaf entry that maps to `paddr` with `flags`: the three fields of the
/// physical page number, the flags and the valid bit.
pub open spec fn leaf_entry(paddr: u64, flags: i64) -> i64 {
    ((((paddr >> 30) & 0x3ff_ffff) << 28) as i64) | ((((paddr >> 21) & 0x1ff) << 19) as i64) | ((((
    paddr >> 12) & 0x1ff) << 10) as i64) | flags | 1
}

/// The bits of an address that pass through translation unchanged where a
/// leaf is found at `level`.
pub open spec fn offset_mask(level: int) -> u64 {
    if level == 0 {
        0xfff
    } else if level == 1 {
        0x1f_ffff
    } else {
        0x3fff_ffff
    }
}

/// The physical address that the leaf `e`, found at `level`, gives to
/// `vaddr`.
pub open spec fn leaf_address(e: i64, level: int, vaddr: u64) -> u64 {
    (((e << 2) as u64) & !offset_mask(level)) | (vaddr & offset_mask(level))
}

/// Indices are below 512, targets are page aligned, and a branch entry gives
/// back the page it was made for.
pub proof fn lemma_entry_bits(vaddr: u64, e: i64, page: u64)
    ensures
        vpn(vaddr, 0) < 512,
        vpn(vaddr, 1) < 512,
        vpn(vaddr, 2) < 512,
        entry_target(e) % 4096 == 0,
        !entry_valid(0),
        page % 4096 == 0 && page < 0x100_0000_0000_0000 ==> {
            &&& entry_valid(branch_entry(page))
            &&& !entry_leaf(branch_entry(page))
            &&& entry_target(branch_entry(page)) == page
        },
{
    assert(((vaddr >> 12) & 0x1ff) < 512 && ((vaddr >> 21) & 0x1ff) < 512 && ((vaddr >> 30) & 0x1ff)
        < 512) by (bit_vector);
    assert((((e & !0x3ffi64) << 2) as u64) % 4096 == 0) by (bit_vector);
    assert(0i64 & 1 == 0) by (bit_vector);
    if page % 4096 == 0 && page < 0x100_0000_0000_0000 {
        assert((((page as i64) >> 2) | 1) & 1 != 0 && (((page as i64) >> 2) | 1) & 14 == 0 && ((((((
        page as i64) >> 2) | 1) & !0x3ffi64) << 2) as u64) == page) by (bit_vector)
            requires
                page % 4096 == 0,
                page < 0x100_0000_0000_0000,
        ;
    }
}

/// A leaf entry is valid, is a leaf, and at level 0 gives every address of
/// the page it was made for the address at the same distance into the
/// physical page.
pub proof fn lemma_leaf_bits(vaddr: u64, paddr: u64, flags: i64, k: u64)
    requires
        vaddr % 4096 == 0,
        paddr % 4096 == 0,
        paddr < 0x100_0000_0000_0000,
        flags & 14 != 0,
        flags & !0xffi64 == 0,
        k < 4096,
    ensures
        entry_valid(leaf_entry(paddr, flags)),
        entry_leaf(leaf_entry(paddr, flags)),
        vaddr + k <= u64::MAX,
        vpn((vaddr + k) as u64, 0) == vpn(vaddr, 0),
        vpn((vaddr + k) as u64, 1) == vpn(vaddr, 1),
        vpn((vaddr + k) as u64, 2) == vpn(vaddr, 2),
        leaf_address(leaf_entry(paddr, flags), 0, (vaddr + k) as u64) == paddr + k,
{
    let e = leaf_entry(paddr, flags);
    assert(e & 1 != 0 && e & 14 != 0) by (bit_vector)
        requires
            e == ((((paddr >> 30) & 0x3ff_ffff) << 28) as i64) | ((((paddr >> 21) & 0x1ff)
                << 19) as i64) | ((((paddr >> 12) & 0x1ff) << 10) as i64) | flags | 1,
            flags & 14 != 0,
    ;
    assert(vaddr + k <= u64::MAX && ((((vaddr + k) as u64) >> 12) & 0x1ff) == ((vaddr >> 12)
        & 0x1ff) && ((((vaddr + k) as u64) >> 21) & 0x1ff) == ((vaddr >> 21) & 0x1ff) && ((((vaddr
        + k) as u64) >> 30) & 0x1ff) == ((vaddr >> 30) & 0x1ff) && ((vaddr + k) as u64) & 0xfff
        == k) by (bit_vector)
        requires
            vaddr % 4096 == 0,
            k < 4096,
    ;
    let v = (vaddr + k) as u64;
    assert((((e << 2) as u64) & !0xfffu64) | (v & 0xfff) == paddr + k) by (bit_vector)
        requires
            e == ((((paddr >> 30) & 0x3ff_ffff) << 28) as i64) | ((((paddr >> 21) & 0x1ff)
                << 19) as i64) | ((((paddr >> 12) & 0x1ff) << 10) as i64) | flags | 1,
            flags & !0xffi64 == 0,
            paddr % 4096 == 0,
            paddr < 0x100_0000_0000_0000,
            v & 0xfff == k,
            k < 4096,
    ;
}

} // verus!
