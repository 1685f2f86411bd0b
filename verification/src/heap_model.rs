//! The kernel heap as a sequence of blocks, and what allocation, release
//! and coalescing do to it.

use crate::alloc_list::{header_word, SIZE_MASK};
use vstd::prelude::*;

verus! {

/// Bytes of a block header.
pub const HEADER_SIZE: u64 = 8;

/// One block of the heap: its size in bytes, header included, and whether
/// it is taken.
pub struct Block {
    pub size: int,
    pub taken: bool,
}

/// A block holds its header and at least one word, in whole words.
pub open spec fn block_valid(b: Block) -> bool {
    &&& 16 <= b.size <= SIZE_MASK
    &&& b.size % 8 == 0
}

/// The distance in bytes of block `k` from the start of the arena: the sizes
/// of the blocks before it.
pub open spec fn offset_of(blocks: Seq<Block>, k: int) -> int
    decreases k,
{
    if k <= 0 {
        0
    } else {
        offset_of(blocks, k - 1) + blocks[k - 1].size
    }
}

/// Block `i` of `blocks` is a valid block, and its header stands where it
/// starts when the first of the blocks starts `base` bytes into the arena.
pub open spec fn header_ok(arena: Seq<u64>, base: int, blocks: Seq<Block>, i: int) -> bool {
    &&& block_valid(blocks[i])
    &&& arena[(base + offset_of(blocks, i)) / 8] == header_word(
        blocks[i].size as u64,
        blocks[i].taken,
    )
}

/// The words of the arena hold exactly these blocks: they fill the arena,
/// and the word at the start of each is its header.
pub open spec fn represents(arena: Seq<u64>, blocks: Seq<Block>) -> bool {
    &&& total(blocks) == arena.len() * 8
    &&& forall|k: int| 0 <= k < blocks.len() ==> #[trigger] header_ok(arena, 0, blocks, k)
}

/// No two neighbouring blocks are both free.
pub open spec fn coalesced(blocks: Seq<Block>) -> bool {
    forall|k: int|
        0 <= k < blocks.len() - 1 ==> (#[trigger] blocks[k]).taken || blocks[k + 1].taken
}

/// The size of the block that serves a request for `size` bytes: the size
/// rounded up to whole words, and the header.
pub open spec fn required_size(size: int) -> int {
    crate::allocator::align_up_spec(size, 8) + 8
}

/// Whether a block can serve a request that needs `required` bytes.
pub open spec fn fits(b: Block, required: int) -> bool {
    !b.taken && b.size >= required
}

/// Block `k` is the first that can serve the request.
pub open spec fn is_first_fit(blocks: Seq<Block>, k: int, required: int) -> bool {
    &&& 0 <= k < blocks.len()
    &&& fits(blocks[k], required)
    &&& forall|j: int| 0 <= j < k ==> !fits(#[trigger] blocks[j], required)
}

/// The blocks after block `k` has served a request that needs `required`
/// bytes: where more than a header would be left over, the block is split
/// into a taken block of exactly `required` bytes and a free remainder;
/// otherwise the whole block is taken.
pub open spec fn take(blocks: Seq<Block>, k: int, required: int) -> Seq<Block> {
    if blocks[k].size - required > 8 {
        blocks.subrange(0, k) + seq![
            Block { size: required, taken: true },
            Block { size: blocks[k].size - required, taken: false },
        ] + blocks.subrange(k + 1, blocks.len() as int)
    } else {
        blocks.update(k, Block { size: blocks[k].size, taken: true })
    }
}

/// The blocks with block `k` marked free.
pub open spec fn release(blocks: Seq<Block>, k: int) -> Seq<Block> {
    blocks.update(k, Block { size: blocks[k].size, taken: false })
}

/// The blocks after one coalescing pass from the front: wherever a free
/// block is followed by a free block the two become one, and the merged
/// block is looked at again, so that every run of free blocks ends as one.
pub open spec fn merge(blocks: Seq<Block>) -> Seq<Block>
    decreases blocks.len(),
{
    if blocks.len() < 2 {
        blocks
    } else if !blocks[0].taken && !blocks[1].taken {
        merge(
            seq![Block { size: blocks[0].size + blocks[1].size, taken: false }] + blocks.skip(2),
        )
    } else {
        seq![blocks[0]] + merge(blocks.skip(1))
    }
}

/// Offsets grow with the index, by at least the size of the blocks between.
pub proof fn lemma_offset_monotonic(blocks: Seq<Block>, i: int, j: int)
    requires
        0 <= i <= j <= blocks.len(),
        forall|k: int| 0 <= k < blocks.len() ==> (#[trigger] blocks[k]).size >= 16,
    ensures
        offset_of(blocks, i) + 16 * (j - i) <= offset_of(blocks, j),
    decreases j - i,
{
    if i < j {
        lemma_offset_monotonic(blocks, i, j - 1);
        assert(blocks[j - 1].size >= 16);
    }
}

/// Offsets depend only on the blocks before the index.
pub proof fn lemma_offset_prefix(a: Seq<Block>, b: Seq<Block>, k: int)
    requires
        0 <= k <= a.len(),
        k <= b.len(),
        forall|j: int| 0 <= j < k ==> a[j] == b[j],
    ensures
        offset_of(a, k) == offset_of(b, k),
    decreases k,
{
    if k > 0 {
        lemma_offset_prefix(a, b, k - 1);
    }
}

/// The bytes that a sequence of blocks covers.
pub open spec fn total(blocks: Seq<Block>) -> int {
    offset_of(blocks, blocks.len() as int)
}

/// Offsets in a concatenation: those in the first part are its own, those in
/// the second part are shifted by the bytes of the first.
pub proof fn lemma_offset_concat(p: Seq<Block>, q: Seq<Block>, j: int)
    requires
        0 <= j <= p.len() + q.len(),
    ensures
        j <= p.len() ==> offset_of(p + q, j) == offset_of(p, j),
        j >= p.len() ==> offset_of(p + q, j) == total(p) + offset_of(q, j - p.len()),
    decreases j,
{
    if j > 0 {
        lemma_offset_concat(p, q, j - 1);
        if j <= p.len() {
            assert((p + q)[j - 1] == p[j - 1]);
        } else {
            assert((p + q)[j - 1] == q[j - 1 - p.len()]);
        }
    }
}

/// Offsets in a subrange are those of the whole, less the offset of the
/// subrange's start.
pub proof fn lemma_offset_subrange(blocks: Seq<Block>, from: int, to: int, j: int)
    requires
        0 <= from <= to <= blocks.len(),
        0 <= j <= to - from,
    ensures
        offset_of(blocks.subrange(from, to), j) == offset_of(blocks, from + j) - offset_of(
            blocks,
            from,
        ),
    decreases j,
{
    if j > 0 {
        lemma_offset_subrange(blocks, from, to, j - 1);
        assert(blocks.subrange(from, to)[j - 1] == blocks[from + j - 1]);
    }
}

/// The blocks with the `m` blocks from index `k` on replaced by `new`.
pub open spec fn replace(blocks: Seq<Block>, k: int, m: int, new: Seq<Block>) -> Seq<Block> {
    blocks.subrange(0, k) + new + blocks.subrange(k + m, blocks.len() as int)
}

/// Where the blocks of a replacement start.
pub proof fn lemma_replace_offset(blocks: Seq<Block>, k: int, m: int, new: Seq<Block>, j: int)
    requires
        0 <= k,
        0 <= m,
        k + m <= blocks.len(),
        total(new) == offset_of(blocks, k + m) - offset_of(blocks, k),
        0 <= j <= replace(blocks, k, m, new).len(),
    ensures
        j <= k ==> offset_of(replace(blocks, k, m, new), j) == offset_of(blocks, j),
        k <= j <= k + new.len() ==> offset_of(replace(blocks, k, m, new), j) == offset_of(blocks, k)
            + offset_of(new, j - k),
        j >= k + new.len() ==> offset_of(replace(blocks, k, m, new), j) == offset_of(
            blocks,
            j - new.len() + m,
        ),
{
    let p = blocks.subrange(0, k);
    let s = blocks.subrange(k + m, blocks.len() as int);
    let n = new.len() as int;
    lemma_offset_subrange(blocks, 0, k, k);
    lemma_offset_concat(p, new, k + n);
    lemma_offset_concat(p + new, s, j);
    if j <= k {
        lemma_offset_concat(p, new, j);
        lemma_offset_subrange(blocks, 0, k, j);
    } else if j <= k + n {
        lemma_offset_concat(p, new, j);
    }
    if j >= k + n {
        lemma_offset_subrange(blocks, k + m, blocks.len() as int, j - k - n);
    }
}

/// Rewriting headers inside a stretch of blocks: if the new blocks cover the
/// same bytes as the `m` blocks they replace, their headers stand where they
/// start, and the headers of all other blocks still stand, then the words
/// hold the new sequence of blocks.
pub proof fn lemma_replace(arena: Seq<u64>, blocks: Seq<Block>, k: int, m: int, new: Seq<Block>)
    requires
        total(blocks) == arena.len() * 8,
        0 <= k,
        0 <= m,
        k + m <= blocks.len(),
        total(new) == offset_of(blocks, k + m) - offset_of(blocks, k),
        forall|i: int|
            0 <= i < new.len() ==> #[trigger] header_ok(arena, offset_of(blocks, k), new, i),
        forall|j: int|
            0 <= j < k || k + m <= j < blocks.len() ==> #[trigger] header_ok(arena, 0, blocks, j),
    ensures
        represents(arena, replace(blocks, k, m, new)),
{
    let r = replace(blocks, k, m, new);
    let n = new.len() as int;
    assert(r.len() == blocks.len() - m + n);
    lemma_replace_offset(blocks, k, m, new, r.len() as int);
    assert(total(r) == total(blocks));
    assert forall|j: int| 0 <= j < r.len() implies #[trigger] header_ok(arena, 0, r, j) by {
        lemma_replace_offset(blocks, k, m, new, j);
        if j < k {
            assert(r[j] == blocks[j]);
            assert(header_ok(arena, 0, blocks, j));
        } else if j < k + n {
            assert(r[j] == new[j - k]);
            assert(header_ok(arena, offset_of(blocks, k), new, j - k));
        } else {
            assert(r[j] == blocks[j - n + m]);
            assert(header_ok(arena, 0, blocks, j - n + m));
        }
    }
}

/// Every block of a represented heap is a valid block.
pub proof fn lemma_blocks_valid(arena: Seq<u64>, blocks: Seq<Block>)
    requires
        represents(arena, blocks),
    ensures
        forall|k: int| 0 <= k < blocks.len() ==> block_valid(#[trigger] blocks[k]),
        forall|k: int| 0 <= k < blocks.len() ==> (#[trigger] blocks[k]).size >= 16,
{
    assert forall|k: int| 0 <= k < blocks.len() implies block_valid(#[trigger] blocks[k]) by {
        assert(header_ok(arena, 0, blocks, k));
    }
}

/// A block starts inside the arena and ends inside it.
pub proof fn lemma_block_extent(arena: Seq<u64>, blocks: Seq<Block>, k: int)
    requires
        represents(arena, blocks),
        0 <= k < blocks.len(),
    ensures
        0 <= offset_of(blocks, k),
        offset_of(blocks, k) % 8 == 0,
        offset_of(blocks, k + 1) == offset_of(blocks, k) + blocks[k].size,
        offset_of(blocks, k + 1) <= arena.len() * 8,
        block_valid(blocks[k]),
        arena[offset_of(blocks, k) / 8] == header_word(blocks[k].size as u64, blocks[k].taken),
{
    lemma_blocks_valid(arena, blocks);
    lemma_offset_monotonic(blocks, 0, k);
    lemma_offset_monotonic(blocks, k + 1, blocks.len() as int);
    lemma_offset_aligned(blocks, k);
    assert(header_ok(arena, 0, blocks, k));
}

/// Blocks of whole words start at whole words.
pub proof fn lemma_offset_aligned(blocks: Seq<Block>, k: int)
    requires
        0 <= k <= blocks.len(),
        forall|j: int| 0 <= j < blocks.len() ==> block_valid(#[trigger] blocks[j]),
    ensures
        offset_of(blocks, k) % 8 == 0,
    decreases k,
{
    if k > 0 {
        lemma_offset_aligned(blocks, k - 1);
        assert(block_valid(blocks[k - 1]));
    }
}

/// An offset below the arena's size that is the start of block `k` belongs
/// to a block: `k` is an index.
pub proof fn lemma_offset_is_index(arena: Seq<u64>, blocks: Seq<Block>, k: int)
    requires
        represents(arena, blocks),
        0 <= k <= blocks.len(),
        offset_of(blocks, k) < arena.len() * 8,
    ensures
        k < blocks.len(),
{
}

/// Words written inside the stretch of the `m` blocks from `k` on leave the
/// headers of all other blocks as they are.
pub proof fn lemma_other_headers(
    arena: Seq<u64>,
    arena2: Seq<u64>,
    blocks: Seq<Block>,
    k: int,
    m: int,
)
    requires
        represents(arena, blocks),
        arena2.len() == arena.len(),
        0 <= k,
        0 <= m,
        k + m <= blocks.len(),
        forall|i: int|
            0 <= i < arena.len() && !(offset_of(blocks, k) <= i * 8 < offset_of(blocks, k + m))
                ==> arena2[i] == arena[i],
    ensures
        forall|j: int|
            0 <= j < k || k + m <= j < blocks.len() ==> #[trigger] header_ok(arena2, 0, blocks, j),
{
    lemma_blocks_valid(arena, blocks);
    assert forall|j: int| 0 <= j < k || k + m <= j < blocks.len() implies #[trigger] header_ok(
        arena2,
        0,
        blocks,
        j,
    ) by {
        lemma_block_extent(arena, blocks, j);
        if j < k {
            lemma_offset_monotonic(blocks, j + 1, k);
        } else {
            lemma_offset_monotonic(blocks, k + m, j);
        }
        let i = offset_of(blocks, j) / 8;
        assert(arena2[i] == arena[i]);
    }
}

/// Taking a free block of a coalesced heap, split or whole, leaves the heap
/// coalesced.
pub proof fn lemma_take_coalesced(blocks: Seq<Block>, k: int, required: int)
    requires
        coalesced(blocks),
        0 <= k < blocks.len(),
        !blocks[k].taken,
    ensures
        coalesced(take(blocks, k, required)),
{
    let t = take(blocks, k, required);
    if blocks[k].size - required > 8 {
        assert forall|j: int| 0 <= j < t.len() - 1 implies (#[trigger] t[j]).taken || t[j
            + 1].taken by {
            if j < k - 1 {
                assert(t[j] == blocks[j] && t[j + 1] == blocks[j + 1]);
            } else if j == k - 1 {
                assert(t[j + 1].taken);
            } else if j == k {
                assert(t[j].taken);
            } else if j == k + 1 {
                assert(t[j + 1] == blocks[k + 1]);
                assert(blocks[k].taken || blocks[k + 1].taken);
            } else {
                assert(t[j] == blocks[j - 1] && t[j + 1] == blocks[j]);
                assert(blocks[j - 1].taken || blocks[j].taken);
            }
        }
    } else {
        assert forall|j: int| 0 <= j < t.len() - 1 implies (#[trigger] t[j]).taken || t[j
            + 1].taken by {
            if j != k && j + 1 != k {
                assert(blocks[j].taken || blocks[j + 1].taken);
            }
        }
    }
}

/// The words after a free block was taken and split hold the heap with the
/// block taken.
pub proof fn lemma_take_split(
    arena: Seq<u64>,
    arena2: Seq<u64>,
    blocks: Seq<Block>,
    k: int,
    required: int,
)
    requires
        represents(arena, blocks),
        0 <= k < blocks.len(),
        fits(blocks[k], required),
        16 <= required,
        required % 8 == 0,
        blocks[k].size - required > 8,
        arena2 == arena.update(
            (offset_of(blocks, k) + required) / 8,
            header_word((blocks[k].size - required) as u64, false),
        ).update(offset_of(blocks, k) / 8, header_word(required as u64, true)),
    ensures
        represents(arena2, take(blocks, k, required)),
{
    let off = offset_of(blocks, k);
    let new = seq![
        Block { size: required, taken: true },
        Block { size: blocks[k].size - required, taken: false },
    ];
    lemma_block_extent(arena, blocks, k);
    lemma_other_headers(arena, arena2, blocks, k, 1);
    assert(offset_of(new, 0) == 0);
    assert(offset_of(new, 1) == required) by {
        assert(offset_of(new, 1) == offset_of(new, 0) + new[0].size);
    }
    assert(offset_of(new, 2) == blocks[k].size) by {
        assert(offset_of(new, 2) == offset_of(new, 1) + new[1].size);
    }
    assert(header_ok(arena2, off, new, 0));
    assert(header_ok(arena2, off, new, 1));
    lemma_replace(arena2, blocks, k, 1, new);
}

/// The words after a free block was taken whole hold the heap with the
/// block taken.
pub proof fn lemma_take_whole(
    arena: Seq<u64>,
    arena2: Seq<u64>,
    blocks: Seq<Block>,
    k: int,
    required: int,
)
    requires
        represents(arena, blocks),
        0 <= k < blocks.len(),
        blocks[k].size - required <= 8,
        arena2 == arena.update(
            offset_of(blocks, k) / 8,
            header_word(blocks[k].size as u64, true),
        ),
    ensures
        represents(arena2, take(blocks, k, required)),
{
    let off = offset_of(blocks, k);
    let new = seq![Block { size: blocks[k].size, taken: true }];
    lemma_block_extent(arena, blocks, k);
    lemma_other_headers(arena, arena2, blocks, k, 1);
    assert(offset_of(new, 0) == 0);
    assert(offset_of(new, 1) == blocks[k].size) by {
        assert(offset_of(new, 1) == offset_of(new, 0) + new[0].size);
    }
    assert(header_ok(arena2, off, new, 0));
    lemma_replace(arena2, blocks, k, 1, new);
    assert(replace(blocks, k, 1, new) =~= take(blocks, k, required));
}

/// The words after the taken bit of a block's header was cleared hold the
/// heap with the block released.
pub proof fn lemma_release(arena: Seq<u64>, arena2: Seq<u64>, blocks: Seq<Block>, k: int)
    requires
        represents(arena, blocks),
        0 <= k < blocks.len(),
        arena2 == arena.update(
            offset_of(blocks, k) / 8,
            header_word(blocks[k].size as u64, false),
        ),
    ensures
        represents(arena2, release(blocks, k)),
{
    let off = offset_of(blocks, k);
    let new = seq![Block { size: blocks[k].size, taken: false }];
    lemma_block_extent(arena, blocks, k);
    lemma_other_headers(arena, arena2, blocks, k, 1);
    assert(offset_of(new, 0) == 0);
    assert(offset_of(new, 1) == blocks[k].size) by {
        assert(offset_of(new, 1) == offset_of(new, 0) + new[0].size);
    }
    assert(header_ok(arena2, off, new, 0));
    lemma_replace(arena2, blocks, k, 1, new);
    assert(replace(blocks, k, 1, new) =~= release(blocks, k));
}

/// The blocks with the free blocks `k` and `k + 1` made one.
pub open spec fn join(blocks: Seq<Block>, k: int) -> Seq<Block> {
    replace(blocks, k, 2, seq![Block { size: blocks[k].size + blocks[k + 1].size, taken: false }])
}

/// The words after the size of the second of two blocks was added to the
/// header of the first hold the heap with the two made one.
pub proof fn lemma_join(arena: Seq<u64>, arena2: Seq<u64>, blocks: Seq<Block>, k: int)
    requires
        represents(arena, blocks),
        0 <= k,
        k + 1 < blocks.len(),
        arena.len() * 8 <= SIZE_MASK,
        arena2 == arena.update(
            offset_of(blocks, k) / 8,
            header_word((blocks[k].size + blocks[k + 1].size) as u64, false),
        ),
    ensures
        represents(arena2, join(blocks, k)),
        blocks[k].size + blocks[k + 1].size <= SIZE_MASK,
{
    let off = offset_of(blocks, k);
    let new = seq![Block { size: blocks[k].size + blocks[k + 1].size, taken: false }];
    lemma_block_extent(arena, blocks, k);
    lemma_block_extent(arena, blocks, k + 1);
    lemma_other_headers(arena, arena2, blocks, k, 2);
    assert(offset_of(new, 0) == 0);
    assert(offset_of(new, 1) == new[0].size) by {
        assert(offset_of(new, 1) == offset_of(new, 0) + new[0].size);
    }
    assert(header_ok(arena2, off, new, 0));
    lemma_replace(arena2, blocks, k, 2, new);
}

/// Coalescing keeps the first block's state: free stays free, taken stays
/// taken, and a heap with blocks keeps some.
pub proof fn lemma_merge_head(blocks: Seq<Block>)
    requires
        blocks.len() > 0,
    ensures
        merge(blocks).len() > 0,
        merge(blocks)[0].taken == blocks[0].taken,
    decreases blocks.len(),
{
    if blocks.len() >= 2 && !blocks[0].taken && !blocks[1].taken {
        lemma_merge_head(
            seq![Block { size: blocks[0].size + blocks[1].size, taken: false }] + blocks.skip(2),
        );
    }
}

/// After a coalescing pass no two neighbouring blocks are both free.
pub proof fn lemma_merge_coalesced(blocks: Seq<Block>)
    ensures
        coalesced(merge(blocks)),
    decreases blocks.len(),
{
    if blocks.len() >= 2 {
        if !blocks[0].taken && !blocks[1].taken {
            lemma_merge_coalesced(
                seq![Block { size: blocks[0].size + blocks[1].size, taken: false }] + blocks.skip(
                    2,
                ),
            );
        } else {
            let rest = merge(blocks.skip(1));
            lemma_merge_coalesced(blocks.skip(1));
            lemma_merge_head(blocks.skip(1));
            let m = seq![blocks[0]] + rest;
            assert forall|j: int| 0 <= j < m.len() - 1 implies (#[trigger] m[j]).taken || m[j
                + 1].taken by {
                if j == 0 {
                    assert(m[1] == rest[0]);
                    assert(blocks.skip(1)[0] == blocks[1]);
                } else {
                    assert(m[j] == rest[j - 1] && m[j + 1] == rest[j]);
                    assert(rest[j - 1].taken || rest[j].taken);
                }
            }
        }
    }
}

/// A coalesced heap is what a coalescing pass leaves of it.
pub proof fn lemma_merge_fixed(blocks: Seq<Block>)
    requires
        coalesced(blocks),
    ensures
        merge(blocks) == blocks,
    decreases blocks.len(),
{
    if blocks.len() >= 2 {
        assert(blocks[0].taken || blocks[1].taken);
        let rest = blocks.skip(1);
        assert forall|j: int| 0 <= j < rest.len() - 1 implies (#[trigger] rest[j]).taken || rest[j
            + 1].taken by {
            assert(rest[j] == blocks[j + 1] && rest[j + 1] == blocks[j + 2]);
            assert(blocks[j + 1].taken || blocks[j + 2].taken);
        }
        lemma_merge_fixed(rest);
        assert(seq![blocks[0]] + rest =~= blocks);
    }
}

/// One step of a coalescing pass that has dealt with the blocks before
/// `k`: where block `k` and its successor are both free they are made one
/// and the pass stays, otherwise it moves on to the successor.
pub proof fn lemma_merge_step(blocks: Seq<Block>, k: int)
    requires
        0 <= k,
        k + 1 < blocks.len(),
    ensures
        !blocks[k].taken && !blocks[k + 1].taken ==> join(blocks, k).subrange(0, k)
            == blocks.subrange(0, k) && merge(blocks.subrange(k, blocks.len() as int)) == merge(
            join(blocks, k).subrange(k, join(blocks, k).len() as int),
        ),
        blocks[k].taken || blocks[k + 1].taken ==> blocks.subrange(0, k) + merge(
            blocks.subrange(k, blocks.len() as int),
        ) == blocks.subrange(0, k + 1) + merge(blocks.subrange(k + 1, blocks.len() as int)),
{
    let tail = blocks.subrange(k, blocks.len() as int);
    assert(tail[0] == blocks[k] && tail[1] == blocks[k + 1]);
    if !blocks[k].taken && !blocks[k + 1].taken {
        let j = join(blocks, k);
        assert(j.subrange(0, k) =~= blocks.subrange(0, k));
        assert(j.subrange(k, j.len() as int) =~= seq![
            Block { size: tail[0].size + tail[1].size, taken: false },
        ] + tail.skip(2));
    } else {
        assert(tail.skip(1) =~= blocks.subrange(k + 1, blocks.len() as int));
        assert(blocks.subrange(0, k) + (seq![tail[0]] + merge(tail.skip(1))) =~= blocks.subrange(
            0,
            k + 1,
        ) + merge(tail.skip(1)));
    }
}

/// A coalescing pass that has reached the last block, or the end, is done.
pub proof fn lemma_merge_done(blocks: Seq<Block>, k: int)
    requires
        0 <= k <= blocks.len(),
        k + 1 >= blocks.len(),
    ensures
        blocks.subrange(0, k) + merge(blocks.subrange(k, blocks.len() as int)) == blocks,
{
    assert(blocks.subrange(0, k) + blocks.subrange(k, blocks.len() as int) =~= blocks);
}

/// Words written strictly inside a block, after its header, leave the heap
/// as it is.
pub proof fn lemma_payload_write(
    arena: Seq<u64>,
    arena2: Seq<u64>,
    blocks: Seq<Block>,
    k: int,
    index: int,
    value: u64,
)
    requires
        represents(arena, blocks),
        0 <= k < blocks.len(),
        offset_of(blocks, k) < index * 8 < offset_of(blocks, k + 1),
        arena2 == arena.update(index, value),
    ensures
        represents(arena2, blocks),
{
    let off = offset_of(blocks, k);
    let new = seq![blocks[k]];
    lemma_block_extent(arena, blocks, k);
    lemma_other_headers(arena, arena2, blocks, k, 1);
    assert(offset_of(new, 0) == 0);
    assert(offset_of(new, 1) == blocks[k].size) by {
        assert(offset_of(new, 1) == offset_of(new, 0) + new[0].size);
    }
    assert(header_ok(arena2, off, new, 0));
    lemma_replace(arena2, blocks, k, 1, new);
    assert(replace(blocks, k, 1, new) =~= blocks);
}

/// The block that served a request stands where the free block stood, is
/// taken, and is large enough.
pub proof fn lemma_take_shape(blocks: Seq<Block>, k: int, required: int)
    requires
        0 <= k < blocks.len(),
        fits(blocks[k], required),
    ensures
        k < take(blocks, k, required).len(),
        offset_of(take(blocks, k, required), k) == offset_of(blocks, k),
        take(blocks, k, required)[k].taken,
        take(blocks, k, required)[k].size >= required,
        take(blocks, k, required)[k].size <= blocks[k].size,
{
    let t = take(blocks, k, required);
    assert forall|j: int| 0 <= j < k implies blocks[j] == t[j] by {}
    lemma_offset_prefix(blocks, t, k);
}

/// Of the words of `after`, at most those with index `x` and `y` differ
/// from the words of `before`.
pub open spec fn changes_only(before: Seq<u64>, after: Seq<u64>, x: int, y: int) -> bool {
    &&& after.len() == before.len()
    &&& forall|i: int| 0 <= i < before.len() && i != x && i != y ==> #[trigger] after[i] == before[i]
}

/// Block `k` starts at the word with index `i`.
pub open spec fn starts_at(blocks: Seq<Block>, k: int, i: int) -> bool {
    0 <= k < blocks.len() && offset_of(blocks, k) == 8 * i
}

/// The word with index `i` is the header of a block.
pub open spec fn is_header_index(blocks: Seq<Block>, i: int) -> bool {
    exists|k: int| #[trigger] starts_at(blocks, k, i)
}

/// Of the words of `after`, only headers of `blocks` differ from the words
/// of `before`: what the blocks hold beside their headers is untouched.
pub open spec fn headers_changed_only(blocks: Seq<Block>, before: Seq<u64>, after: Seq<u64>) -> bool {
    &&& after.len() == before.len()
    &&& forall|i: int|
        0 <= i < before.len() && !is_header_index(blocks, i) ==> #[trigger] after[i] == before[i]
}

/// Every block of `now` starts where a block of `blocks` starts.
pub open spec fn starts_kept(now: Seq<Block>, blocks: Seq<Block>) -> bool {
    forall|k: int|
        0 <= k < now.len() ==> is_header_index(blocks, #[trigger] offset_of(now, k) / 8)
}

/// Releasing a block moves no block.
pub proof fn lemma_release_offsets(blocks: Seq<Block>, k: int, j: int)
    requires
        0 <= k < blocks.len(),
        0 <= j <= blocks.len(),
    ensures
        offset_of(release(blocks, k), j) == offset_of(blocks, j),
    decreases j,
{
    if j > 0 {
        lemma_release_offsets(blocks, k, j - 1);
    }
}

/// The blocks of a heap start where they start.
pub proof fn lemma_starts_kept_self(arena: Seq<u64>, blocks: Seq<Block>)
    requires
        represents(arena, blocks),
    ensures
        starts_kept(blocks, blocks),
{
    assert forall|k: int| 0 <= k < blocks.len() implies is_header_index(
        blocks,
        #[trigger] offset_of(blocks, k) / 8,
    ) by {
        lemma_block_extent(arena, blocks, k);
        assert(starts_at(blocks, k, offset_of(blocks, k) / 8));
    }
}

/// After a block was released, the blocks start where they started.
pub proof fn lemma_starts_kept_release(arena: Seq<u64>, blocks: Seq<Block>, k: int)
    requires
        represents(arena, blocks),
        0 <= k < blocks.len(),
    ensures
        starts_kept(release(blocks, k), blocks),
{
    lemma_starts_kept_self(arena, blocks);
    assert forall|j: int| 0 <= j < release(blocks, k).len() implies is_header_index(
        blocks,
        #[trigger] offset_of(release(blocks, k), j) / 8,
    ) by {
        lemma_release_offsets(blocks, k, j);
        assert(is_header_index(blocks, offset_of(blocks, j) / 8));
    }
}

/// After two blocks were made one, every block starts where one started
/// before.
pub proof fn lemma_starts_kept_join(now: Seq<Block>, blocks: Seq<Block>, k: int)
    requires
        starts_kept(now, blocks),
        0 <= k,
        k + 1 < now.len(),
    ensures
        starts_kept(join(now, k), blocks),
{
    let new = seq![Block { size: now[k].size + now[k + 1].size, taken: false }];
    assert(offset_of(new, 0) == 0);
    assert(total(new) == now[k].size + now[k + 1].size) by {
        assert(offset_of(new, 1) == offset_of(new, 0) + new[0].size);
    }
    assert(offset_of(now, k + 2) - offset_of(now, k) == now[k].size + now[k + 1].size) by {
        assert(offset_of(now, k + 2) == offset_of(now, k + 1) + now[k + 1].size);
        assert(offset_of(now, k + 1) == offset_of(now, k) + now[k].size);
    }
    assert forall|j: int| 0 <= j < join(now, k).len() implies is_header_index(
        blocks,
        #[trigger] offset_of(join(now, k), j) / 8,
    ) by {
        lemma_replace_offset(now, k, 2, new, j);
        if j <= k {
            assert(is_header_index(blocks, offset_of(now, j) / 8));
        } else {
            assert(is_header_index(blocks, offset_of(now, j + 1) / 8));
        }
    }
}

} // verus!
