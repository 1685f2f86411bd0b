//! Address alignment shared by the allocators.

use vstd::arithmetic::power2::{lemma2_to64, pow2};
use vstd::prelude::*;

verus! {

/// Whether `n` is a power of two that fits a machine word.
pub open spec fn is_pow2(n: u64) -> bool {
    exists|k: nat| k < 64 && n == #[trigger] pow2(k)
}

/// The least multiple of `align` that is not below `addr`.
pub open spec fn align_up_spec(addr: int, align: int) -> int {
    if addr % align == 0 {
        addr
    } else {
        addr - addr % align + align
    }
}

/// The byte and page granularities used throughout are powers of two.
pub proof fn lemma_granules_are_pow2()
    ensures
        is_pow2(8),
        is_pow2(4096),
{
    lemma2_to64();
    assert(8 == pow2(3));
    assert(4096 == pow2(12));
}

/// Align the address `addr` upwards to alignment `align`.
pub fn align_up(addr: u64, align: u64) -> (r: u64)
    requires
        is_pow2(align),
        addr + align - 1 <= u64::MAX,
    ensures
        r == align_up_spec(addr as int, align as int),
        r % align == 0,
        addr <= r < addr + align,
{
    proof {
        let k = choose|k: nat| k < 64 && align == #[trigger] pow2(k);
        vstd::arithmetic::power2::lemma_pow2_pos(k);
    }
    let remainder: u64 = addr % align;
    if remainder == 0 {
        addr
    } else {
        assert(remainder < align && remainder <= addr) by (nonlinear_arith)
            requires
                remainder == addr % align,
                align > 0,
        ;
        let r: u64 = addr + (align - remainder);
        assert(r % align == 0) by (nonlinear_arith)
            requires
                r == addr - addr % align + align,
                align > 0,
        ;
        r
    }
}

/// Number of block sizes of the fixed-size block lists.
pub const BLOCK_SIZE_COUNT: usize = 9;

/// The block size with index `index`: the powers of two from 8 to 2048.
pub open spec fn block_size(index: int) -> int {
    if index == 0 {
        8
    } else if index == 1 {
        16
    } else if index == 2 {
        32
    } else if index == 3 {
        64
    } else if index == 4 {
        128
    } else if index == 5 {
        256
    } else if index == 6 {
        512
    } else if index == 7 {
        1024
    } else {
        2048
    }
}

/// Choose an appropriate block size for an allocation of `size` bytes
/// aligned to `align`: the index of the smallest block size that is at
/// least the larger of the two, or `None` if even the largest is too small.
pub fn block_size_list_index(size: usize, align: usize) -> (r: Option<usize>)
    ensures
        match r {
            Some(index) => {
                &&& index < BLOCK_SIZE_COUNT
                &&& size <= block_size(index as int)
                &&& align <= block_size(index as int)
                &&& index > 0 ==> size > block_size(index - 1) || align > block_size(index - 1)
            },
            None => size > 2048 || align > 2048,
        },
{
    let required_block_size: usize = if size >= align {
        size
    } else {
        align
    };
    let sizes: [usize; 9] = [8, 16, 32, 64, 128, 256, 512, 1024, 2048];
    let mut index: usize = 0;
    while index < 9
        invariant
            index <= 9,
            required_block_size == if size >= align {
                size
            } else {
                align
            },
            forall|k: int| 0 <= k < 9 ==> sizes[k] == block_size(k),
            forall|k: int| 0 <= k < index ==> required_block_size > block_size(k),
        decreases 9 - index,
    {
        if sizes[index] >= required_block_size {
            return Some(index);
        }
        index += 1;
    }
    proof {
        assert(required_block_size > block_size(8));
    }
    None
}

} // verus!
