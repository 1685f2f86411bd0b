//! Laws of the kernel heap, over its sequence of blocks.

use crate::heap_model::{
    block_valid, coalesced, fits, is_first_fit, join, lemma_merge_fixed, lemma_offset_monotonic,
    lemma_offset_prefix, lemma_replace_offset, merge, offset_of, release, replace, take, total,
    Block,
};
use vstd::prelude::*;

verus! {

/// The blocks `before`, then two free blocks of `a` and `b` bytes, then the
/// blocks `after`.
pub open spec fn with_free_pair(before: Seq<Block>, a: int, b: int, after: Seq<Block>) -> Seq<
    Block,
> {
    before + seq![Block { size: a, taken: false }, Block { size: b, taken: false }] + after
}

/// The blocks `before`, then one free block of `size` bytes, then the blocks
/// `after`.
pub open spec fn with_free_block(before: Seq<Block>, size: int, after: Seq<Block>) -> Seq<Block> {
    before + seq![Block { size, taken: false }] + after
}

/// Where two neighbouring free blocks are the only neighbours that are both
/// free, a coalescing pass makes them one and changes nothing else.
pub proof fn lemma_merge_pair(before: Seq<Block>, a: int, b: int, after: Seq<Block>)
    requires
        coalesced(with_free_block(before, a + b, after)),
    ensures
        merge(with_free_pair(before, a, b, after)) == with_free_block(before, a + b, after),
    decreases before.len(),
{
    let pair = with_free_pair(before, a, b, after);
    let one = with_free_block(before, a + b, after);
    if before.len() == 0 {
        assert(pair[0] == Block { size: a, taken: false });
        assert(pair[1] == Block { size: b, taken: false });
        assert(seq![Block { size: pair[0].size + pair[1].size, taken: false }] + pair.skip(2)
            =~= one);
        lemma_merge_fixed(one);
    } else {
        assert(one[0] == before[0]);
        assert(pair[0] == before[0]);
        assert(one[0].taken || one[1].taken);
        if before.len() == 1 {
            assert(one[1] == Block { size: a + b, taken: false });
            assert(pair[1] == Block { size: a, taken: false });
        } else {
            assert(one[1] == before[1]);
            assert(pair[1] == before[1]);
        }
        let rest = before.skip(1);
        assert(pair.skip(1) =~= with_free_pair(rest, a, b, after));
        assert(one.skip(1) =~= with_free_block(rest, a + b, after));
        assert forall|j: int| 0 <= j < one.skip(1).len() - 1 implies (#[trigger] one.skip(
            1,
        )[j]).taken || one.skip(1)[j + 1].taken by {
            assert(one.skip(1)[j] == one[j + 1] && one.skip(1)[j + 1] == one[j + 2]);
            assert(one[j + 1].taken || one[j + 2].taken);
        }
        lemma_merge_pair(rest, a, b, after);
        assert(seq![pair[0]] + with_free_block(rest, a + b, after) =~= one);
    }
}

/// Heap reuse: when the block that served a request is freed before
/// anything else is allocated, the heap is what it was before the request,
/// so that the same request is served at the same address again.
pub proof fn lemma_heap_reuse(blocks: Seq<Block>, k: int, required: int)
    requires
        coalesced(blocks),
        is_first_fit(blocks, k, required),
    ensures
        merge(release(take(blocks, k, required), k)) == blocks,
{
    let taken = take(blocks, k, required);
    if blocks[k].size - required > 8 {
        let before = blocks.subrange(0, k);
        let after = blocks.subrange(k + 1, blocks.len() as int);
        let rest = blocks[k].size - required;
        assert(release(taken, k) =~= with_free_pair(before, required, rest, after));
        assert(with_free_block(before, required + rest, after) =~= blocks);
        lemma_merge_pair(before, required, rest, after);
    } else {
        assert(release(taken, k) =~= blocks);
        lemma_merge_fixed(blocks);
    }
}

/// Block `k` and its successor are taken, and so are the blocks around the
/// two, where there are any.
pub open spec fn taken_pair(blocks: Seq<Block>, k: int) -> bool {
    &&& 0 <= k
    &&& k + 1 < blocks.len()
    &&& blocks[k].taken
    &&& blocks[k + 1].taken
    &&& k > 0 ==> blocks[k - 1].taken
    &&& k + 2 < blocks.len() ==> blocks[k + 2].taken
}

/// Coalescing: freeing two taken blocks that are neighbours, in either
/// order, leaves one free block in their place whose size is the sum of
/// theirs, and a request that needs no more than that sum fits it.
pub proof fn lemma_free_neighbours(blocks: Seq<Block>, k: int)
    requires
        coalesced(blocks),
        taken_pair(blocks, k),
    ensures
        merge(release(merge(release(blocks, k)), k + 1)) == join(blocks, k),
        merge(release(merge(release(blocks, k + 1)), k)) == join(blocks, k),
        join(blocks, k).len() == blocks.len() - 1,
        join(blocks, k)[k] == (Block { size: blocks[k].size + blocks[k + 1].size, taken: false }),
        forall|required: int|
            required <= blocks[k].size + blocks[k + 1].size ==> fits(
                join(blocks, k)[k],
                required,
            ),
{
    let a = blocks[k].size;
    let b = blocks[k + 1].size;
    let before = blocks.subrange(0, k);
    let after = blocks.subrange(k + 2, blocks.len() as int);
    let joined = join(blocks, k);
    assert(joined =~= with_free_block(before, a + b, after));
    assert(joined[k] == Block { size: a + b, taken: false });
    assert forall|j: int| 0 <= j < joined.len() - 1 implies (#[trigger] joined[j]).taken || joined[j
        + 1].taken by {
        if j < k - 1 {
            assert(joined[j] == blocks[j] && joined[j + 1] == blocks[j + 1]);
            assert(blocks[j].taken || blocks[j + 1].taken);
        } else if j == k - 1 {
            assert(joined[j] == blocks[k - 1]);
        } else if j == k {
            assert(joined[j + 1] == blocks[k + 2]);
        } else {
            assert(joined[j] == blocks[j + 1] && joined[j + 1] == blocks[j + 2]);
            assert(blocks[j + 1].taken || blocks[j + 2].taken);
        }
    }
    lemma_merge_pair(before, a, b, after);
    let first = release(blocks, k);
    assert forall|j: int| 0 <= j < first.len() - 1 implies (#[trigger] first[j]).taken || first[j
        + 1].taken by {
        if j != k && j + 1 != k {
            assert(blocks[j].taken || blocks[j + 1].taken);
        }
    }
    lemma_merge_fixed(first);
    assert(release(first, k + 1) =~= with_free_pair(before, a, b, after));
    let second = release(blocks, k + 1);
    assert forall|j: int| 0 <= j < second.len() - 1 implies (#[trigger] second[j]).taken
        || second[j + 1].taken by {
        if j != k + 1 && j != k {
            assert(blocks[j].taken || blocks[j + 1].taken);
        }
    }
    lemma_merge_fixed(second);
    assert(release(second, k) =~= with_free_pair(before, a, b, after));
}

/// Free blocks of the given sizes, one after the other.
pub open spec fn free_run(sizes: Seq<int>) -> Seq<Block> {
    Seq::new(sizes.len(), |i: int| Block { size: sizes[i], taken: false })
}

/// The sum of the sizes.
pub open spec fn sum(sizes: Seq<int>) -> int
    decreases sizes.len(),
{
    if sizes.len() == 0 {
        0
    } else {
        sizes[0] + sum(sizes.drop_first())
    }
}

/// Where a run of free blocks is the only place at which neighbours are
/// both free, a coalescing pass makes the run one block and changes nothing
/// else.
pub proof fn lemma_merge_run(before: Seq<Block>, sizes: Seq<int>, after: Seq<Block>)
    requires
        sizes.len() >= 1,
        coalesced(with_free_block(before, sum(sizes), after)),
    ensures
        merge(before + free_run(sizes) + after) == with_free_block(before, sum(sizes), after),
    decreases before.len(), sizes.len(),
{
    let run = before + free_run(sizes) + after;
    let one = with_free_block(before, sum(sizes), after);
    if before.len() == 0 {
        if sizes.len() == 1 {
            assert(sum(sizes.drop_first()) == 0);
            assert(run =~= one);
            lemma_merge_fixed(one);
        } else {
            let joined = seq![sizes[0] + sizes[1]] + sizes.skip(2);
            assert(run[0] == Block { size: sizes[0], taken: false });
            assert(run[1] == Block { size: sizes[1], taken: false });
            assert(seq![Block { size: run[0].size + run[1].size, taken: false }] + run.skip(2)
                =~= before + free_run(joined) + after);
            assert(sum(joined) == sum(sizes)) by {
                assert(joined.drop_first() =~= sizes.skip(2));
                assert(sizes.drop_first().drop_first() =~= sizes.skip(2));
                assert(sizes.drop_first()[0] == sizes[1]);
                assert(sum(sizes) == sizes[0] + sum(sizes.drop_first()));
                assert(sum(sizes.drop_first()) == sizes[1] + sum(sizes.skip(2)));
                assert(sum(joined) == joined[0] + sum(sizes.skip(2)));
            }
            lemma_merge_run(before, joined, after);
        }
    } else {
        assert(one[0] == before[0]);
        assert(run[0] == before[0]);
        assert(one[0].taken || one[1].taken);
        if before.len() == 1 {
            assert(one[1] == Block { size: sum(sizes), taken: false });
            assert(run[1] == Block { size: sizes[0], taken: false });
        } else {
            assert(one[1] == before[1]);
            assert(run[1] == before[1]);
        }
        let rest = before.skip(1);
        assert(run.skip(1) =~= rest + free_run(sizes) + after);
        assert(one.skip(1) =~= with_free_block(rest, sum(sizes), after));
        assert forall|j: int| 0 <= j < one.skip(1).len() - 1 implies (#[trigger] one.skip(
            1,
        )[j]).taken || one.skip(1)[j + 1].taken by {
            assert(one.skip(1)[j] == one[j + 1] && one.skip(1)[j + 1] == one[j + 2]);
            assert(one[j + 1].taken || one[j + 2].taken);
        }
        lemma_merge_run(rest, sizes, after);
        assert(seq![run[0]] + with_free_block(rest, sum(sizes), after) =~= one);
    }
}

/// Putting one block in the place of a stretch of blocks whose neighbours
/// are taken leaves a coalesced heap coalesced.
pub proof fn lemma_coalesced_splice(blocks: Seq<Block>, lo: int, hi: int, size: int)
    requires
        coalesced(blocks),
        0 <= lo <= hi < blocks.len(),
        lo > 0 ==> blocks[lo - 1].taken,
        hi + 1 < blocks.len() ==> blocks[hi + 1].taken,
    ensures
        coalesced(
            with_free_block(
                blocks.subrange(0, lo),
                size,
                blocks.subrange(hi + 1, blocks.len() as int),
            ),
        ),
{
    let one = with_free_block(
        blocks.subrange(0, lo),
        size,
        blocks.subrange(hi + 1, blocks.len() as int),
    );
    assert forall|j: int| 0 <= j < one.len() - 1 implies (#[trigger] one[j]).taken || one[j
        + 1].taken by {
        if j < lo - 1 {
            assert(one[j] == blocks[j] && one[j + 1] == blocks[j + 1]);
            assert(blocks[j].taken || blocks[j + 1].taken);
        } else if j == lo - 1 {
            assert(one[j] == blocks[lo - 1]);
        } else if j == lo {
            assert(one[j + 1] == blocks[hi + 1]);
        } else {
            assert(one[j] == blocks[j + hi - lo] && one[j + 1] == blocks[j + hi - lo + 1]);
            assert(blocks[j + hi - lo].taken || blocks[j + hi - lo + 1].taken);
        }
    }
}

/// The first block of the free stretch that the taken blocks `k` and
/// `k + 1` end up in once both are freed: the block before them if it is
/// free, and `k` otherwise.
pub open spec fn stretch_start(blocks: Seq<Block>, k: int) -> int {
    if k > 0 && !blocks[k - 1].taken {
        k - 1
    } else {
        k
    }
}

/// The last block of that stretch: the block after the two if it is free,
/// and `k + 1` otherwise.
pub open spec fn stretch_end(blocks: Seq<Block>, k: int) -> int {
    if k + 2 < blocks.len() && !blocks[k + 2].taken {
        k + 2
    } else {
        k + 1
    }
}

/// The bytes of the blocks from `lo` to `hi`.
pub open spec fn stretch_size(blocks: Seq<Block>, lo: int, hi: int) -> int {
    offset_of(blocks, hi + 1) - offset_of(blocks, lo)
}

/// The heap after the taken neighbours `k` and `k + 1` were both freed: one
/// free block in the place of the two and of the free blocks beside them.
pub open spec fn freed_pair(blocks: Seq<Block>, k: int) -> Seq<Block> {
    with_free_block(
        blocks.subrange(0, stretch_start(blocks, k)),
        stretch_size(blocks, stretch_start(blocks, k), stretch_end(blocks, k)),
        blocks.subrange(stretch_end(blocks, k) + 1, blocks.len() as int),
    )
}

/// Blocks `k` and `k + 1` of a coalesced heap of valid blocks are taken.
pub open spec fn taken_neighbours(blocks: Seq<Block>, k: int) -> bool {
    &&& coalesced(blocks)
    &&& forall|j: int| 0 <= j < blocks.len() ==> block_valid(#[trigger] blocks[j])
    &&& 0 <= k
    &&& k + 1 < blocks.len()
    &&& blocks[k].taken
    &&& blocks[k + 1].taken
}

/// The sizes of the free blocks before and after the pair that belong to
/// the stretch.
pub open spec fn stretch_left(blocks: Seq<Block>, k: int) -> Seq<int> {
    if stretch_start(blocks, k) < k {
        seq![blocks[k - 1].size]
    } else {
        Seq::<int>::empty()
    }
}

pub open spec fn stretch_right(blocks: Seq<Block>, k: int) -> Seq<int> {
    if stretch_end(blocks, k) > k + 1 {
        seq![blocks[k + 2].size]
    } else {
        Seq::<int>::empty()
    }
}

/// The stretch is the pair and the free blocks beside it, and the blocks
/// around the stretch are taken.
pub proof fn lemma_stretch(blocks: Seq<Block>, k: int)
    requires
        taken_neighbours(blocks, k),
    ensures
        ({
            let lo = stretch_start(blocks, k);
            let hi = stretch_end(blocks, k);
            let a = blocks[k].size;
            let b = blocks[k + 1].size;
            &&& 0 <= lo <= k
            &&& k + 1 <= hi < blocks.len()
            &&& lo > 0 ==> blocks[lo - 1].taken
            &&& hi + 1 < blocks.len() ==> blocks[hi + 1].taken
            &&& a >= 16 && b >= 16
            &&& stretch_size(blocks, lo, hi) == sum(
                stretch_left(blocks, k) + seq![a, b] + stretch_right(blocks, k),
            )
            &&& stretch_size(blocks, lo, k) == sum(stretch_left(blocks, k) + seq![a])
            &&& stretch_size(blocks, k + 1, hi) == sum(seq![b] + stretch_right(blocks, k))
            &&& stretch_size(blocks, lo, hi) == stretch_size(blocks, lo, k) + stretch_size(
                blocks,
                k + 1,
                hi,
            )
            &&& stretch_size(blocks, lo, hi) >= a + b
            &&& lo == k && hi == k + 1 ==> stretch_size(blocks, lo, hi) == a + b
            &&& offset_of(blocks, k + 1) == offset_of(blocks, k) + a
            &&& offset_of(blocks, lo) <= offset_of(blocks, k)
        }),
{
    let n = blocks.len() as int;
    let lo = stretch_start(blocks, k);
    let hi = stretch_end(blocks, k);
    let a = blocks[k].size;
    let b = blocks[k + 1].size;
    assert(offset_of(blocks, k + 1) == offset_of(blocks, k) + a);
    assert(offset_of(blocks, k + 2) == offset_of(blocks, k + 1) + b);
    assert(block_valid(blocks[k]) && block_valid(blocks[k + 1]));
    if lo < k {
        assert(offset_of(blocks, k) == offset_of(blocks, k - 1) + blocks[k - 1].size);
        assert(block_valid(blocks[k - 1]));
        if lo > 0 {
            assert(blocks[lo - 1].taken || blocks[lo].taken);
        }
    }
    if hi > k + 1 {
        assert(offset_of(blocks, k + 3) == offset_of(blocks, k + 2) + blocks[k + 2].size);
        assert(block_valid(blocks[k + 2]));
        if hi + 1 < n {
            assert(blocks[hi].taken || blocks[hi + 1].taken);
        }
    }
    lemma_sum_small(stretch_left(blocks, k) + seq![a, b] + stretch_right(blocks, k));
    lemma_sum_small(stretch_left(blocks, k) + seq![a]);
    lemma_sum_small(seq![b] + stretch_right(blocks, k));
}

/// Freeing the first of the pair and then the second.
pub proof fn lemma_free_pair_forwards(blocks: Seq<Block>, k: int)
    requires
        taken_neighbours(blocks, k),
    ensures
        ({
            let lo = stretch_start(blocks, k);
            let first = merge(release(blocks, k));
            &&& lo + 1 < first.len()
            &&& first[lo + 1] == blocks[k + 1]
            &&& offset_of(first, lo + 1) == offset_of(blocks, k + 1)
            &&& merge(release(first, lo + 1)) == freed_pair(blocks, k)
        }),
{
    let n = blocks.len() as int;
    let lo = stretch_start(blocks, k);
    let hi = stretch_end(blocks, k);
    let a = blocks[k].size;
    let b = blocks[k + 1].size;
    let left = stretch_left(blocks, k);
    let right = stretch_right(blocks, k);
    let before = blocks.subrange(0, lo);
    let after = blocks.subrange(hi + 1, n);
    let mid = blocks.subrange(k + 1, n);
    let sizes = left + seq![a];
    let part = stretch_size(blocks, lo, k);
    lemma_stretch(blocks, k);
    lemma_coalesced_splice(blocks, lo, k, part);
    assert(release(blocks, k) =~= before + free_run(sizes) + mid);
    lemma_merge_run(before, sizes, mid);
    let first = with_free_block(before, part, mid);
    assert(merge(release(blocks, k)) == first);
    assert(first.len() == lo + 1 + mid.len());
    assert(first[lo + 1] == blocks[k + 1]);
    assert(offset_of(first, lo + 1) == offset_of(blocks, k + 1)) by {
        lemma_offset_prefix(first, blocks, lo);
        assert(offset_of(first, lo + 1) == offset_of(first, lo) + first[lo].size);
    }
    let rest = seq![part] + seq![b] + right;
    lemma_sum_small(rest);
    lemma_coalesced_splice(blocks, lo, hi, stretch_size(blocks, lo, hi));
    assert(sum(rest) == stretch_size(blocks, lo, hi)) by {
        let tail = seq![b] + right;
        lemma_sum_small(tail);
        assert(rest[0] == part && rest[1] == b && tail[0] == b);
        if right.len() == 1 {
            assert(rest[2] == right[0] && tail[1] == right[0]);
        }
    }
    assert(release(first, lo + 1) =~= before + free_run(rest) + after);
    lemma_merge_run(before, rest, after);
    assert(merge(release(first, lo + 1)) == freed_pair(blocks, k));
}

/// Freeing the second of the pair and then the first.
pub proof fn lemma_free_pair_backwards(blocks: Seq<Block>, k: int)
    requires
        taken_neighbours(blocks, k),
    ensures
        ({
            let second = merge(release(blocks, k + 1));
            &&& k < second.len()
            &&& second[k] == blocks[k]
            &&& offset_of(second, k) == offset_of(blocks, k)
            &&& merge(release(second, k)) == freed_pair(blocks, k)
        }),
{
    let n = blocks.len() as int;
    let lo = stretch_start(blocks, k);
    let hi = stretch_end(blocks, k);
    let a = blocks[k].size;
    let b = blocks[k + 1].size;
    let left = stretch_left(blocks, k);
    let right = stretch_right(blocks, k);
    let before = blocks.subrange(0, lo);
    let after = blocks.subrange(hi + 1, n);
    let mid = blocks.subrange(0, k + 1);
    let sizes = seq![b] + right;
    let part = stretch_size(blocks, k + 1, hi);
    lemma_stretch(blocks, k);
    lemma_coalesced_splice(blocks, k + 1, hi, part);
    assert(release(blocks, k + 1) =~= mid + free_run(sizes) + after);
    lemma_merge_run(mid, sizes, after);
    let second = with_free_block(mid, part, after);
    assert(second[k] == blocks[k]);
    lemma_offset_prefix(second, blocks, k);
    let rest = left + seq![a] + seq![part];
    lemma_sum_small(rest);
    assert(sum(rest) == stretch_size(blocks, lo, hi)) by {
        let head = left + seq![a];
        lemma_sum_small(head);
        if left.len() == 1 {
            assert(rest[0] == left[0] && rest[1] == a && rest[2] == part);
            assert(head[0] == left[0] && head[1] == a);
        } else {
            assert(rest[0] == a && rest[1] == part && head[0] == a);
        }
    }
    lemma_coalesced_splice(blocks, lo, hi, stretch_size(blocks, lo, hi));
    assert(release(second, k) =~= before + free_run(rest) + after);
    lemma_merge_run(before, rest, after);
}

/// The block that is left of the pair: free, as large as the stretch, where
/// the stretch started, and no block starts where the second of the pair
/// started.
pub proof fn lemma_freed_pair_block(blocks: Seq<Block>, k: int)
    requires
        taken_neighbours(blocks, k),
    ensures
        ({
            let lo = stretch_start(blocks, k);
            let hi = stretch_end(blocks, k);
            let end = freed_pair(blocks, k);
            &&& coalesced(end)
            &&& lo < end.len()
            &&& end[lo] == (Block { size: stretch_size(blocks, lo, hi), taken: false })
            &&& forall|j: int| 0 <= j < lo ==> end[j] == blocks[j]
            &&& offset_of(end, lo) == offset_of(blocks, lo)
            &&& forall|j: int|
                0 <= j < end.len() ==> #[trigger] offset_of(end, j) != offset_of(blocks, k + 1)
        }),
{
    let lo = stretch_start(blocks, k);
    let hi = stretch_end(blocks, k);
    let end = freed_pair(blocks, k);
    let whole = stretch_size(blocks, lo, hi);
    lemma_stretch(blocks, k);
    lemma_coalesced_splice(blocks, lo, hi, whole);
    assert(end[lo] == Block { size: whole, taken: false });
    assert forall|j: int| 0 <= j < lo implies end[j] == blocks[j] by {}
    lemma_offset_prefix(end, blocks, lo);
    let new = seq![Block { size: whole, taken: false }];
    assert(end == replace(blocks, lo, hi - lo + 1, new));
    assert(total(new) == whole) by {
        assert(offset_of(new, 1) == offset_of(new, 0) + new[0].size);
        assert(offset_of(new, 0) == 0);
    }
    assert forall|i: int| 0 <= i < blocks.len() implies (#[trigger] blocks[i]).size >= 16 by {
        assert(block_valid(blocks[i]));
    }
    assert forall|j: int| 0 <= j < end.len() implies #[trigger] offset_of(end, j) != offset_of(
        blocks,
        k + 1,
    ) by {
        lemma_replace_offset(blocks, lo, hi - lo + 1, new, j);
        if j <= lo {
            lemma_offset_monotonic(blocks, j, lo);
            lemma_offset_monotonic(blocks, lo, k);
        } else {
            lemma_offset_monotonic(blocks, hi + 1, j + hi - lo);
            lemma_offset_monotonic(blocks, k + 2, hi + 1);
        }
    }
}

/// Coalescing, whatever stands beside the pair: freeing two taken blocks
/// that are neighbours, in either order, leaves one free block that covers
/// both. It starts where the first started unless the block before was
/// free, its size is at least the sum of the two, and exactly the sum where
/// the blocks around the pair are taken. No block starts any more where the
/// second started. A request that needs no more than the sum, and that no
/// block before the pair could serve, is served by this block.
pub proof fn lemma_free_pair(blocks: Seq<Block>, k: int)
    requires
        taken_neighbours(blocks, k),
    ensures
        ({
            let lo = stretch_start(blocks, k);
            let hi = stretch_end(blocks, k);
            let first = merge(release(blocks, k));
            let second = merge(release(blocks, k + 1));
            let end = freed_pair(blocks, k);
            &&& lo + 1 < first.len()
            &&& first[lo + 1] == blocks[k + 1]
            &&& offset_of(first, lo + 1) == offset_of(blocks, k + 1)
            &&& merge(release(first, lo + 1)) == end
            &&& k < second.len()
            &&& second[k] == blocks[k]
            &&& offset_of(second, k) == offset_of(blocks, k)
            &&& merge(release(second, k)) == end
            &&& coalesced(end)
            &&& lo < end.len()
            &&& !end[lo].taken
            &&& end[lo].size >= blocks[k].size + blocks[k + 1].size
            &&& lo == k && hi == k + 1 ==> end[lo].size == blocks[k].size + blocks[k + 1].size
            &&& offset_of(end, lo) == offset_of(blocks, lo)
            &&& offset_of(end, lo) <= offset_of(blocks, k)
            &&& offset_of(end, lo) + end[lo].size == offset_of(blocks, hi + 1)
            &&& forall|j: int|
                0 <= j < end.len() ==> #[trigger] offset_of(end, j) != offset_of(blocks, k + 1)
            &&& forall|required: int|
                required <= blocks[k].size + blocks[k + 1].size && (forall|j: int|
                    0 <= j < k ==> !fits(#[trigger] blocks[j], required)) ==> is_first_fit(
                    end,
                    lo,
                    required,
                )
        }),
{
    let lo = stretch_start(blocks, k);
    let end = freed_pair(blocks, k);
    lemma_stretch(blocks, k);
    lemma_free_pair_forwards(blocks, k);
    lemma_free_pair_backwards(blocks, k);
    lemma_freed_pair_block(blocks, k);
    assert forall|required: int|
        required <= blocks[k].size + blocks[k + 1].size && (forall|j: int|
            0 <= j < k ==> !fits(#[trigger] blocks[j], required)) implies is_first_fit(
        end,
        lo,
        required,
    ) by {
        assert forall|j: int| 0 <= j < lo implies !fits(#[trigger] end[j], required) by {
            assert(end[j] == blocks[j]);
        }
    }
}

/// The sum of up to four sizes, written out.
pub proof fn lemma_sum_small(sizes: Seq<int>)
    requires
        sizes.len() <= 4,
    ensures
        sizes.len() == 0 ==> sum(sizes) == 0,
        sizes.len() == 1 ==> sum(sizes) == sizes[0],
        sizes.len() == 2 ==> sum(sizes) == sizes[0] + sizes[1],
        sizes.len() == 3 ==> sum(sizes) == sizes[0] + sizes[1] + sizes[2],
        sizes.len() == 4 ==> sum(sizes) == sizes[0] + sizes[1] + sizes[2] + sizes[3],
    decreases sizes.len(),
{
    if sizes.len() > 0 {
        lemma_sum_small(sizes.drop_first());
        let rest = sizes.drop_first();
        assert forall|i: int| 0 <= i < rest.len() implies rest[i] == sizes[i + 1] by {}
    }
}

} // verus!
