//! The kernel heap: blocks of any size carved out of page frames.
//!
//! The heap is an arena inside the frames of a page allocator. Every block
//! starts with a one-word header that holds its size and whether it is
//! taken; the next block starts where this one ends.

use crate::alloc_list::{header_word, lemma_header_bits, AllocList, SIZE_MASK};
use crate::allocator::{align_up, lemma_granules_are_pow2};
use crate::consts::{get_page_align, PAGE_ALIGN};
use crate::heap_model::{
    changes_only, coalesced, fits, header_ok, headers_changed_only, is_first_fit,
    is_header_index, join, lemma_block_extent, lemma_join, lemma_starts_kept_join,
    lemma_starts_kept_release, lemma_starts_kept_self, starts_at, starts_kept,
    lemma_merge_coalesced, lemma_merge_done, lemma_merge_step, lemma_offset_is_index,
    lemma_offset_monotonic, lemma_payload_write, lemma_release, lemma_take_coalesced,
    lemma_take_split, lemma_take_whole, merge, offset_of, release, represents, required_size,
    take, Block, HEADER_SIZE,
};
use crate::page_allocator::{first_fit, marked, run_free, zeroed, PageAllocator};
use vstd::prelude::*;

verus! {

/// Pages that the heap reserves.
pub const KMEM_PAGES: usize = 512;

/// One line of the heap's table: a block's address, size and state.
#[derive(Debug, Clone, Copy, PartialEq, Eq, Structural)]
pub struct KmemEntry {
    /// Address of the block's header.
    pub address: u64,
    /// Bytes in the block, header included.
    pub length: u64,
    pub taken: bool,
}

/// The sub-page allocator of the kernel.
pub struct KernelHeap {
    initialized: bool,
    head: u64,
    allocated: usize,
    blocks: Ghost<Seq<Block>>,
}

impl KernelHeap {
    /// Whether `init` has succeeded.
    pub closed spec fn ready(&self) -> bool {
        self.initialized
    }

    /// The address of the arena's first byte.
    pub closed spec fn head(&self) -> u64 {
        self.head
    }

    /// The amount of memory (in pages) allocated by the kernel.
    pub closed spec fn allocated_pages(&self) -> int {
        self.allocated as int
    }

    /// The blocks of the heap in address order.
    pub closed spec fn blocks(&self) -> Seq<Block> {
        self.blocks@
    }

    /// Bytes in the arena.
    pub open spec fn arena_bytes(&self) -> int {
        self.allocated_pages() * 4096
    }

    /// The arena lies in whole words inside the frames of `mem`.
    pub open spec fn placed(&self, mem: &PageAllocator) -> bool {
        &&& mem.base() <= self.head()
        &&& self.head() % 8 == 0
        &&& self.head() + self.arena_bytes() <= mem.limit()
        &&& 16 <= self.arena_bytes() <= SIZE_MASK
    }

    /// The position among the words of `mem` of the arena's first word.
    pub open spec fn first_word(&self, mem: &PageAllocator) -> int {
        mem.word_index(self.head())
    }

    /// The words of the arena.
    pub open spec fn arena(&self, mem: &PageAllocator) -> Seq<u64> {
        mem.words().subrange(
            self.first_word(mem),
            self.first_word(mem) + self.allocated_pages() * 512,
        )
    }

    /// The invariant of the heap: once it is ready, its arena lies inside the
    /// frames, the words of the arena hold its blocks, and no two
    /// neighbouring blocks are both free.
    pub open spec fn wf(&self, mem: &PageAllocator) -> bool {
        self.ready() ==> {
            &&& self.placed(mem)
            &&& represents(self.arena(mem), self.blocks())
            &&& coalesced(self.blocks())
        }
    }

    /// Nothing of `new` differs from `old` but words of the arena.
    pub open spec fn frames(&self, old: &PageAllocator, new: &PageAllocator) -> bool {
        &&& new.wf()
        &&& new.ready() == old.ready()
        &&& new.base() == old.base()
        &&& new.region() == old.region()
        &&& new.flags() == old.flags()
        &&& new.words().len() == old.words().len()
        &&& forall|i: int|
            0 <= i < old.words().len() && !(self.first_word(old) <= i < self.first_word(old)
                + self.allocated_pages() * 512) ==> new.words()[i] == old.words()[i]
    }

    /// The arena has 512 words for each page of the heap.
    pub proof fn lemma_arena_len(&self, mem: &PageAllocator)
        requires
            mem.wf(),
            self.placed(mem),
        ensures
            self.arena(mem).len() == self.allocated_pages() * 512,
            self.arena(mem).len() * 8 == self.arena_bytes(),
            0 <= self.first_word(mem),
            self.first_word(mem) + self.allocated_pages() * 512 <= mem.words().len(),
            self.head() + self.arena_bytes() <= u64::MAX,
    {
        mem.lemma_wf();
    }

    /// A heap that has no arena yet: not initialized, without pages and
    /// blocks, with the head at zero.
    pub fn new() -> (r: Self)
        ensures
            !r.ready(),
            r.head() == 0,
            r.allocated_pages() == 0,
            r.blocks() == Seq::<Block>::empty(),
    {
        KernelHeap { initialized: false, head: 0, allocated: 0, blocks: Ghost(Seq::empty()) }
    }

    /// Check if the kernel memory system is initialized.
    pub fn is_initialized(&self) -> (r: bool)
        ensures
            r == self.ready(),
    {
        self.initialized
    }

    /// The address of the first block, once the heap is initialized.
    pub fn get_head(&self) -> (r: Option<u64>)
        ensures
            r == if self.ready() {
                Some(self.head())
            } else {
                None
            },
    {
        if self.initialized {
            Some(self.head)
        } else {
            None
        }
    }

    /// The amount of memory (in pages) allocated by the kernel.
    pub fn get_allocated_pages(&self) -> (r: usize)
        ensures
            r == self.allocated_pages(),
    {
        self.allocated
    }

    fn load(&self, mem: &PageAllocator, off: u64) -> (h: AllocList)
        requires
            mem.wf(),
            self.placed(mem),
            off % 8 == 0,
            off + 8 <= self.arena_bytes(),
        ensures
            h.spec_word() == self.arena(mem)[off as int / 8],
    {
        proof {
            mem.lemma_wf();
        }
        AllocList::from_word(mem.read_word(self.head + off))
    }

    fn store(&self, mem: &mut PageAllocator, off: u64, h: AllocList)
        requires
            old(mem).wf(),
            self.placed(old(mem)),
            off % 8 == 0,
            off + 8 <= self.arena_bytes(),
        ensures
            self.frames(old(mem), final(mem)),
            self.placed(final(mem)),
            self.arena(final(mem)) == self.arena(old(mem)).update(off as int / 8, h.spec_word()),
            final(mem).words() == old(mem).words().update(
                self.first_word(old(mem)) + off as int / 8,
                h.spec_word(),
            ),
    {
        proof {
            mem.lemma_wf();
        }
        mem.write_word(self.head + off, h.word());
        proof {
            mem.lemma_wf();
            assert(self.arena(mem) =~= self.arena(old(mem)).update(off as int / 8, h.spec_word()));
        }
    }

    /// Initializes the kernel memory system: reserves the heap's pages,
    /// zeroed, and installs one free block that spans the whole arena.
    /// Returns `false`, changing nothing, if the pages cannot be had.
    pub fn init(&mut self, mem: &mut PageAllocator) -> (ok: bool)
        requires
            old(mem).wf(),
            old(mem).ready(),
            !old(self).ready(),
        ensures
            final(mem).wf(),
            final(mem).ready(),
            final(mem).base() == old(mem).base(),
            final(mem).region() == old(mem).region(),
            final(mem).pages() == old(mem).pages(),
            final(self).wf(final(mem)),
            ok == exists|i: int| run_free(old(mem).flags(), i, 512),
            final(self).ready() == ok,
            ok ==> {
                let i = old(mem).page_of(final(self).head());
                &&& first_fit(old(mem).flags(), i, 512)
                &&& final(self).head() == old(mem).base() + 4096 * i
                &&& final(self).allocated_pages() == 512
                &&& final(mem).flags() == marked(old(mem).flags(), i, 512)
                &&& final(mem).words() == zeroed(old(mem).words(), i * 512, (i + 512) * 512).update(
                    i * 512,
                    header_word(2097152, false),
                )
                &&& final(self).blocks() == seq![Block { size: 2097152, taken: false }]
            },
            !ok ==> {
                &&& final(mem).flags() == old(mem).flags()
                &&& final(mem).words() == old(mem).words()
            },
    {
        let r = mem.zalloc(KMEM_PAGES);
        match r {
            None => false,
            Some(p) => {
                let ghost i = old(mem).page_of(p);
                proof {
                    mem.lemma_wf();
                    assert(run_free(old(mem).flags(), i, 512));
                }
                self.head = p;
                self.allocated = KMEM_PAGES;
                let mut h = AllocList::from_word(mem.read_word(p));
                h.set_free();
                h.set_size((KMEM_PAGES as u64) * get_page_align());
                let ghost before = *mem;
                self.store(mem, 0, h);
                let ghost whole = seq![Block { size: 2097152, taken: false }];
                self.blocks = Ghost(whole);
                self.initialized = true;
                proof {
                    lemma_header_bits(0, 2097152);
                    let b = self.blocks@;
                    assert(offset_of(b, 0) == 0);
                    assert(offset_of(b, 1) == 2097152) by {
                        assert(offset_of(b, 1) == offset_of(b, 0) + b[0].size);
                    }
                    assert(self.arena(mem).len() == 262144);
                    assert(header_ok(self.arena(mem), 0, b, 0));
                    assert(self.first_word(&before) == i * 512);
                    assert(h.spec_word() == header_word(2097152, false));
                    assert(mem.words() =~= zeroed(old(mem).words(), i * 512, (i + 512) * 512).update(
                        i * 512,
                        header_word(2097152, false),
                    ));
                }
                true
            },
        }
    }

    /// Allocates sub-page level memory in kernel space.
    ///
    /// The size is rounded up to the next 8 byte boundary and the header is
    /// added. The first free block that is large enough serves the request:
    /// it is split where more than a header would be left over, and taken
    /// whole otherwise. Returns the address of the payload, or `None`,
    /// changing nothing, if no block is large enough.
    pub fn kmalloc(&mut self, mem: &mut PageAllocator, size: u64) -> (r: Option<u64>)
        requires
            old(mem).wf(),
            old(self).ready(),
            old(self).wf(old(mem)),
            size > 0,
        ensures
            final(self).ready(),
            final(self).head() == old(self).head(),
            final(self).allocated_pages() == old(self).allocated_pages(),
            final(self).wf(final(mem)),
            old(self).frames(old(mem), final(mem)),
            match r {
                Some(p) => exists|k: int|
                    {
                        &&& #[trigger] is_first_fit(
                            old(self).blocks(),
                            k,
                            required_size(size as int),
                        )
                        &&& p == old(self).head() + offset_of(old(self).blocks(), k) + 8
                        &&& final(self).blocks() == take(
                            old(self).blocks(),
                            k,
                            required_size(size as int),
                        )
                        &&& changes_only(
                            old(self).arena(old(mem)),
                            final(self).arena(final(mem)),
                            offset_of(old(self).blocks(), k) / 8,
                            (offset_of(old(self).blocks(), k) + required_size(size as int)) / 8,
                        )
                    },
                None => {
                    &&& forall|k: int|
                        0 <= k < old(self).blocks().len() ==> !fits(
                            #[trigger] old(self).blocks()[k],
                            required_size(size as int),
                        )
                    &&& final(self).blocks() == old(self).blocks()
                    &&& final(mem).words() == old(mem).words()
                },
            },
    {
        let ghost blocks = self.blocks@;
        let ghost arena = self.arena(mem);
        if size > SIZE_MASK {
            proof {
                assert forall|k: int| 0 <= k < blocks.len() implies !fits(
                    #[trigger] blocks[k],
                    required_size(size as int),
                ) by {
                    lemma_block_extent(arena, blocks, k);
                }
            }
            return None;
        }
        proof {
            lemma_granules_are_pow2();
            self.lemma_arena_len(mem);
        }
        let required: u64 = align_up(size, 8) + HEADER_SIZE;
        let arena_bytes: u64 = (self.allocated as u64) * PAGE_ALIGN;
        let mut off: u64 = 0;
        let ghost mut k: int = 0;
        while off < arena_bytes
            invariant
                *mem == *old(mem),
                *self == *old(self),
                mem.wf(),
                self.ready(),
                self.wf(mem),
                blocks == self.blocks(),
                arena == self.arena(mem),
                arena_bytes == self.arena_bytes(),
                arena.len() * 8 == arena_bytes,
                required == required_size(size as int),
                16 <= required,
                required % 8 == 0,
                0 <= k <= blocks.len(),
                off == offset_of(blocks, k),
                forall|j: int| 0 <= j < k ==> !fits(#[trigger] blocks[j], required as int),
            decreases blocks.len() - k,
        {
            proof {
                lemma_offset_is_index(arena, blocks, k);
                lemma_block_extent(arena, blocks, k);
                lemma_header_bits(0, blocks[k].size as u64);
            }
            let mut h = self.load(mem, off);
            if h.is_free() && required <= h.size() {
                let chunk: u64 = h.size();
                let remaining: u64 = chunk - required;
                h.set_taken();
                if remaining > HEADER_SIZE {
                    let mut next = self.load(mem, off + required);
                    next.set_free();
                    next.set_size(remaining);
                    h.set_size(required);
                    self.store(mem, off + required, next);
                    self.store(mem, off, h);
                    proof {
                        lemma_header_bits(0, remaining);
                        lemma_header_bits(0, required);
                        lemma_take_split(arena, self.arena(mem), blocks, k, required as int);
                    }
                } else {
                    h.set_size(chunk);
                    self.store(mem, off, h);
                    proof {
                        lemma_take_whole(arena, self.arena(mem), blocks, k, required as int);
                    }
                }
                let ghost taken = take(blocks, k, required as int);
                self.blocks = Ghost(taken);
                proof {
                    lemma_take_coalesced(blocks, k, required as int);
                    assert(is_first_fit(blocks, k, required_size(size as int)));
                    self.lemma_arena_len(mem);
                    assert(off + 16 <= arena_bytes);
                }
                return Some(self.head + off + HEADER_SIZE);
            } else {
                off = off + h.size();
                proof {
                    k = k + 1;
                }
            }
        }
        proof {
            if k < blocks.len() {
                lemma_block_extent(arena, blocks, k);
                crate::heap_model::lemma_offset_monotonic(blocks, k + 1, blocks.len() as int);
                crate::heap_model::lemma_blocks_valid(arena, blocks);
            }
        }
        None
    }

    /// Block `k` exists and `ptr` is the address of its payload.
    pub open spec fn is_payload_of(&self, ptr: u64, k: int) -> bool {
        &&& 0 <= k < self.blocks().len()
        &&& ptr == self.head() + offset_of(self.blocks(), k) + 8
    }

    /// Whether `ptr` is the address of the payload of one of the blocks.
    pub open spec fn is_payload(&self, ptr: u64) -> bool {
        exists|k: int| #[trigger] self.is_payload_of(ptr, k)
    }

    /// Whether `kfree` may be called on `ptr`: whether it is the address of
    /// the payload of a block of the heap, free or taken.
    pub fn is_block(&self, mem: &PageAllocator, ptr: u64) -> (r: bool)
        requires
            mem.wf(),
            self.ready(),
            self.wf(mem),
        ensures
            r == self.is_payload(ptr),
    {
        let ghost blocks = self.blocks@;
        let ghost arena = self.arena(mem);
        proof {
            self.lemma_arena_len(mem);
        }
        let arena_bytes: u64 = (self.allocated as u64) * PAGE_ALIGN;
        let mut off: u64 = 0;
        let ghost mut k: int = 0;
        while off < arena_bytes
            invariant
                mem.wf(),
                self.ready(),
                self.wf(mem),
                blocks == self.blocks(),
                arena == self.arena(mem),
                arena_bytes == self.arena_bytes(),
                arena.len() * 8 == arena_bytes,
                self.head() + arena_bytes <= u64::MAX,
                0 <= k <= blocks.len(),
                off == offset_of(blocks, k),
                forall|j: int| 0 <= j < k ==> !self.is_payload_of(ptr, j),
            decreases blocks.len() - k,
        {
            proof {
                lemma_offset_is_index(arena, blocks, k);
                lemma_block_extent(arena, blocks, k);
                lemma_header_bits(0, blocks[k].size as u64);
            }
            if ptr == self.head + off + HEADER_SIZE {
                proof {
                    assert(self.is_payload_of(ptr, k));
                }
                return true;
            }
            let h = self.load(mem, off);
            off = off + h.size();
            proof {
                k = k + 1;
            }
        }
        proof {
            if k < blocks.len() {
                lemma_block_extent(arena, blocks, k);
                lemma_offset_monotonic(blocks, k + 1, blocks.len() as int);
                crate::heap_model::lemma_blocks_valid(arena, blocks);
            }
            assert forall|j: int| !self.is_payload_of(ptr, j) by {}
        }
        false
    }

    /// Coalesces (merges) adjacent free blocks in one pass from the head of
    /// the arena: where two neighbours are both free, the size of the second
    /// is added to the first, and the merged block is looked at again.
    fn coalesce(&mut self, mem: &mut PageAllocator)
        requires
            old(mem).wf(),
            old(self).ready(),
            old(self).placed(old(mem)),
            represents(old(self).arena(old(mem)), old(self).blocks()),
        ensures
            final(self).ready(),
            final(self).head() == old(self).head(),
            final(self).allocated_pages() == old(self).allocated_pages(),
            final(self).wf(final(mem)),
            old(self).frames(old(mem), final(mem)),
            final(self).blocks() == merge(old(self).blocks()),
            headers_changed_only(
                old(self).blocks(),
                old(self).arena(old(mem)),
                final(self).arena(final(mem)),
            ),
    {
        let ghost orig = self.blocks@;
        let ghost start = self.arena(mem);
        proof {
            lemma_starts_kept_self(start, orig);
            self.lemma_arena_len(mem);
            assert(orig.subrange(0, 0) + merge(orig.subrange(0, orig.len() as int)) =~= merge(orig))
                by {
                assert(orig.subrange(0, orig.len() as int) =~= orig);
            }
        }
        let arena_bytes: u64 = (self.allocated as u64) * PAGE_ALIGN;
        let mut off: u64 = 0;
        let ghost mut k: int = 0;
        while off < arena_bytes
            invariant
                mem.wf(),
                self.ready(),
                self.placed(mem),
                self.head() == old(self).head(),
                self.allocated_pages() == old(self).allocated_pages(),
                old(self).frames(old(mem), mem),
                self.first_word(mem) == old(self).first_word(old(mem)),
                represents(self.arena(mem), self.blocks()),
                arena_bytes == self.arena_bytes(),
                self.arena(mem).len() * 8 == arena_bytes,
                0 <= k <= self.blocks().len(),
                off == offset_of(self.blocks(), k),
                off < arena_bytes,
                merge(orig) == self.blocks().subrange(0, k) + merge(
                    self.blocks().subrange(k, self.blocks().len() as int),
                ),
                starts_kept(self.blocks(), orig),
                headers_changed_only(orig, start, self.arena(mem)),
            ensures
                mem.wf(),
                self.ready(),
                self.placed(mem),
                self.head() == old(self).head(),
                self.allocated_pages() == old(self).allocated_pages(),
                old(self).frames(old(mem), mem),
                represents(self.arena(mem), self.blocks()),
                self.blocks() == merge(orig),
                headers_changed_only(orig, start, self.arena(mem)),
            decreases self.blocks().len() - k,
        {
            let ghost cur = self.blocks@;
            let ghost arena = self.arena(mem);
            proof {
                lemma_offset_is_index(arena, cur, k);
                lemma_block_extent(arena, cur, k);
                lemma_header_bits(0, cur[k].size as u64);
            }
            let mut h = self.load(mem, off);
            let size: u64 = h.size();
            if size == 0 {
                // A block without a size is a corrupted heap: stop rather than loop.
                break;
            }
            let next_off: u64 = off + size;
            if next_off >= arena_bytes {
                proof {
                    if k + 1 < cur.len() {
                        lemma_block_extent(arena, cur, k + 1);
                        lemma_offset_monotonic(cur, k + 2, cur.len() as int);
                        crate::heap_model::lemma_blocks_valid(arena, cur);
                    }
                    lemma_merge_done(cur, k);
                }
                break;
            }
            proof {
                lemma_offset_is_index(arena, cur, k + 1);
                lemma_block_extent(arena, cur, k + 1);
                lemma_header_bits(0, cur[k + 1].size as u64);
                lemma_merge_step(cur, k);
            }
            let next = self.load(mem, next_off);
            if h.is_free() && next.is_free() {
                let merged: u64 = size + next.size();
                h.set_size(merged);
                self.store(mem, off, h);
                let ghost joined = join(cur, k);
                self.blocks = Ghost(joined);
                proof {
                    lemma_header_bits(0, merged);
                    assert(is_header_index(orig, offset_of(cur, k) / 8));
                    lemma_starts_kept_join(cur, orig, k);
                    lemma_join(arena, self.arena(mem), cur, k);
                    crate::heap_model::lemma_offset_prefix(cur, joined, k);
                    assert(forall|j: int| 0 <= j < k ==> cur[j] == joined[j]);
                }
            } else {
                off = next_off;
                proof {
                    k = k + 1;
                }
            }
        }
        proof {
            lemma_merge_coalesced(orig);
        }
    }

    /// Frees memory allocated by `kmalloc`: the block whose payload starts at
    /// `ptr` is marked free, and adjacent free blocks are coalesced.
    pub fn kfree(&mut self, mem: &mut PageAllocator, ptr: u64)
        requires
            old(mem).wf(),
            old(self).ready(),
            old(self).wf(old(mem)),
            ptr != 0,
            old(self).is_payload(ptr),
        ensures
            final(self).ready(),
            final(self).head() == old(self).head(),
            final(self).allocated_pages() == old(self).allocated_pages(),
            final(self).wf(final(mem)),
            old(self).frames(old(mem), final(mem)),
            forall|k: int| #[trigger]
                old(self).is_payload_of(ptr, k) ==> final(self).blocks() == merge(
                    release(old(self).blocks(), k),
                ),
            headers_changed_only(
                old(self).blocks(),
                old(self).arena(old(mem)),
                final(self).arena(final(mem)),
            ),
    {
        let ghost blocks = self.blocks@;
        let ghost arena = self.arena(mem);
        let ghost k = choose|k: int| #[trigger] self.is_payload_of(ptr, k);
        proof {
            self.lemma_arena_len(mem);
            lemma_block_extent(arena, blocks, k);
            lemma_header_bits(0, blocks[k].size as u64);
            assert forall|j: int| #[trigger] self.is_payload_of(ptr, j) implies j == k by {
                crate::heap_model::lemma_blocks_valid(arena, blocks);
                if j < k {
                    lemma_offset_monotonic(blocks, j, k);
                } else if j > k {
                    lemma_offset_monotonic(blocks, k, j);
                }
            }
        }
        let off: u64 = ptr - self.head - HEADER_SIZE;
        let mut p = self.load(mem, off);
        if p.is_taken() {
            p.set_free();
            self.store(mem, off, p);
            proof {
                lemma_release(arena, self.arena(mem), blocks, k);
            }
        } else {
            proof {
                assert(release(blocks, k) =~= blocks);
            }
        }
        let ghost released = release(blocks, k);
        self.blocks = Ghost(released);
        let ghost middle = *mem;
        let ghost between = self.arena(mem);
        proof {
            assert(starts_at(blocks, k, offset_of(blocks, k) / 8));
            assert(headers_changed_only(blocks, arena, between));
            lemma_starts_kept_release(arena, blocks, k);
        }
        self.coalesce(mem);
        proof {
            assert(self.first_word(&middle) == self.first_word(old(mem)));
            let after = self.arena(mem);
            assert forall|i: int|
                0 <= i < arena.len() && !is_header_index(blocks, i) implies #[trigger] after[i]
                == arena[i] by {
                if is_header_index(released, i) {
                    let j = choose|j: int| #[trigger] starts_at(released, j, i);
                    assert(is_header_index(blocks, offset_of(released, j) / 8));
                }
            }
        }
    }

    /// Allocates sub-page level memory in kernel space and zeroes it: the
    /// size rounded up to the next 8 byte boundary is allocated as `kmalloc`
    /// does, and that many bytes of the payload are set to zero.
    pub fn kzmalloc(&mut self, mem: &mut PageAllocator, size: u64) -> (r: Option<u64>)
        requires
            old(mem).wf(),
            old(self).ready(),
            old(self).wf(old(mem)),
            size > 0,
        ensures
            final(self).ready(),
            final(self).head() == old(self).head(),
            final(self).allocated_pages() == old(self).allocated_pages(),
            final(self).wf(final(mem)),
            old(self).frames(old(mem), final(mem)),
            match r {
                Some(p) => {
                    &&& exists|k: int|
                        {
                            &&& #[trigger] is_first_fit(
                                old(self).blocks(),
                                k,
                                required_size(size as int),
                            )
                            &&& p == old(self).head() + offset_of(old(self).blocks(), k) + 8
                            &&& final(self).blocks() == take(
                                old(self).blocks(),
                                k,
                                required_size(size as int),
                            )
                            &&& forall|i: int|
                                0 <= i < old(self).arena(old(mem)).len() && !(offset_of(
                                    old(self).blocks(),
                                    k,
                                ) / 8 <= i <= (offset_of(old(self).blocks(), k) + required_size(
                                    size as int,
                                )) / 8) ==> #[trigger] final(self).arena(final(mem))[i] == old(
                                    self,
                                ).arena(old(mem))[i]
                        }
                    &&& forall|w: int|
                        final(mem).word_index(p) <= w < final(mem).word_index(p) + (required_size(
                            size as int,
                        ) - 8) / 8 ==> #[trigger] final(mem).words()[w] == 0
                },
                None => {
                    &&& forall|k: int|
                        0 <= k < old(self).blocks().len() ==> !fits(
                            #[trigger] old(self).blocks()[k],
                            required_size(size as int),
                        )
                    &&& final(self).blocks() == old(self).blocks()
                    &&& final(mem).words() == old(mem).words()
                },
            },
    {
        if size > SIZE_MASK {
            proof {
                let blocks = self.blocks@;
                let arena = self.arena(mem);
                assert forall|k: int| 0 <= k < blocks.len() implies !fits(
                    #[trigger] blocks[k],
                    required_size(size as int),
                ) by {
                    lemma_block_extent(arena, blocks, k);
                }
            }
            return None;
        }
        proof {
            lemma_granules_are_pow2();
        }
        let align_size: u64 = align_up(size, 8);
        proof {
            assert(required_size(align_size as int) == required_size(size as int));
        }
        let r = self.kmalloc(mem, align_size);
        match r {
            None => None,
            Some(ptr) => {
                let ghost before = self.blocks@;
                let ghost orig = old(self).blocks();
                let ghost k = choose|k: int|
                    {
                        &&& #[trigger] is_first_fit(orig, k, required_size(align_size as int))
                        &&& ptr == old(self).head() + offset_of(orig, k) + 8
                        &&& before == take(orig, k, required_size(align_size as int))
                        &&& changes_only(
                            old(self).arena(old(mem)),
                            self.arena(mem),
                            offset_of(orig, k) / 8,
                            (offset_of(orig, k) + required_size(align_size as int)) / 8,
                        )
                    };
                let ghost middle = *mem;
                let ghost taken = self.arena(mem);
                let ghost x = offset_of(orig, k) / 8;
                let ghost y = (offset_of(orig, k) + required_size(align_size as int)) / 8;
                proof {
                    self.lemma_arena_len(mem);
                    lemma_block_extent(old(self).arena(old(mem)), orig, k);
                    crate::heap_model::lemma_take_shape(
                        orig,
                        k,
                        required_size(align_size as int),
                    );
                    lemma_block_extent(self.arena(mem), before, k);
                    assert(offset_of(before, k) == offset_of(orig, k));
                    assert(before[k].size >= required_size(align_size as int));
                }
                let words: u64 = align_size / 8;
                let mut i: u64 = 0;
                while i < words
                    invariant
                        mem.wf(),
                        self.ready(),
                        self.placed(mem),
                        before == self.blocks(),
                        coalesced(before),
                        0 <= k < before.len(),
                        represents(self.arena(mem), before),
                        self.frames(&middle, mem),
                        self.first_word(mem) == self.first_word(&middle),
                        ptr == self.head() + offset_of(before, k) + 8,
                        offset_of(before, k) + 8 + align_size <= offset_of(before, k + 1),
                        offset_of(before, k + 1) <= self.arena_bytes(),
                        0 <= offset_of(before, k),
                        offset_of(before, k) % 8 == 0,
                        words == align_size / 8,
                        align_size % 8 == 0,
                        i <= words,
                        x == offset_of(before, k) / 8,
                        y == x + 1 + words,
                        taken.len() == self.arena(mem).len(),
                        forall|j: int|
                            0 <= j < taken.len() && !(x < j < y) ==> #[trigger] self.arena(mem)[j]
                                == taken[j],
                        forall|w: int|
                            mem.word_index(ptr) <= w < mem.word_index(ptr) + i
                                ==> #[trigger] mem.words()[w] == 0,
                    decreases words - i,
                {
                    let ghost arena = self.arena(mem);
                    proof {
                        self.lemma_arena_len(mem);
                    }
                    let zero = AllocList::from_word(0);
                    self.store(mem, ptr - self.head + i * 8, zero);
                    proof {
                        lemma_payload_write(
                            arena,
                            self.arena(mem),
                            before,
                            k,
                            (offset_of(before, k) + 8 + i * 8) / 8,
                            0,
                        );
                        mem.lemma_wf();
                    }
                    i += 1;
                }
                Some(ptr)
            },
        }
    }

    /// The line of the heap's table for block `k`.
    pub open spec fn table_entry(&self, k: int) -> KmemEntry {
        KmemEntry {
            address: (self.head() + offset_of(self.blocks(), k)) as u64,
            length: self.blocks()[k].size as u64,
            taken: self.blocks()[k].taken,
        }
    }

    /// The heap's table: every block in address order.
    pub fn kmem_table(&self, mem: &PageAllocator) -> (r: Vec<KmemEntry>)
        requires
            mem.wf(),
            self.ready(),
            self.wf(mem),
        ensures
            r@.len() == self.blocks().len(),
            forall|k: int| 0 <= k < r@.len() ==> r@[k] == #[trigger] self.table_entry(k),
    {
        let ghost blocks = self.blocks@;
        let ghost arena = self.arena(mem);
        proof {
            self.lemma_arena_len(mem);
        }
        let arena_bytes: u64 = (self.allocated as u64) * PAGE_ALIGN;
        let mut table: Vec<KmemEntry> = Vec::new();
        let mut off: u64 = 0;
        while off < arena_bytes
            invariant
                mem.wf(),
                self.ready(),
                self.wf(mem),
                blocks == self.blocks(),
                arena == self.arena(mem),
                arena_bytes == self.arena_bytes(),
                arena.len() * 8 == arena_bytes,
                self.head() + arena_bytes <= u64::MAX,
                table@.len() <= blocks.len(),
                off == offset_of(blocks, table@.len() as int),
                forall|k: int| 0 <= k < table@.len() ==> table@[k] == #[trigger] self.table_entry(k),
            decreases blocks.len() - table@.len(),
        {
            let ghost k = table@.len() as int;
            proof {
                lemma_offset_is_index(arena, blocks, k);
                lemma_block_extent(arena, blocks, k);
                lemma_header_bits(0, blocks[k].size as u64);
            }
            let h = self.load(mem, off);
            table.push(KmemEntry { address: self.head + off, length: h.size(), taken: h.is_taken() });
            off = off + h.size();
        }
        proof {
            let k = table@.len() as int;
            if k < blocks.len() {
                lemma_block_extent(arena, blocks, k);
                lemma_offset_monotonic(blocks, k + 1, blocks.len() as int);
                crate::heap_model::lemma_blocks_valid(arena, blocks);
            }
        }
        table
    }
}

} // verus!
