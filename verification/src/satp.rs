//! Values of the address translation register.

use vstd::prelude::*;

verus! {

/// The mode field of the register for three-level translation.
pub const SATP_MODE_SV39: u64 = 8;

/// The register's value that turns three-level translation on with the root
/// table in the frame at `table`: the frame's number in the low bits, the
/// mode in the four highest.
pub open spec fn satp_sv39(table: u64) -> u64 {
    (table >> 12) | (8u64 << 60)
}

/// For a root table in the physical address space the value is the frame
/// number plus the mode in bits 60 to 63.
pub proof fn lemma_satp_sv39(table: u64)
    requires
        table < 0x100_0000_0000_0000,
    ensures
        satp_sv39(table) == table / 4096 + 0x8000_0000_0000_0000,
        satp_sv39(table) != 0,
{
    assert((table >> 12) | (8u64 << 60) == table / 4096 + 0x8000_0000_0000_0000) by (bit_vector)
        requires
            table < 0x100_0000_0000_0000,
    ;
}

/// Check if virtual memory is enabled: so it is if the register is non-zero.
pub fn is_virtual_memory_enabled(satp: u64) -> (r: bool)
    ensures
        r == (satp != 0),
{
    satp != 0
}

/// The value to write to the register to enable virtual memory with the
/// root table at `table`.
pub fn enable_virtual_memory_sv39(table: u64) -> (r: u64)
    ensures
        r == satp_sv39(table),
{
    (table >> 12) | (SATP_MODE_SV39 << 60)
}

} // verus!
