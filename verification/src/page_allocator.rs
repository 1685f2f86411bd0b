//! First-fit allocator of whole physical page frames.
//!
//! One descriptor byte per frame is the sole record of ownership. The frames'
//! contents are kept beside the descriptors as 64-bit words, so that zero
//! filling and the structures that later live inside frames can be stated.

use crate::allocator::{align_up, lemma_granules_are_pow2};
use crate::consts::PAGE_ALIGN;
use crate::page::{lemma_descriptor_bytes, Page, PageBits};
use vstd::prelude::*;

verus! {

/// 64-bit words in one page frame.
pub const WORDS_PER_PAGE: usize = 512;

/// Every descriptor is empty, taken, or taken and last.
pub open spec fn descriptors_wf(flags: Seq<u8>) -> bool {
    forall|i: int| 0 <= i < flags.len() ==> #[trigger] flags[i] == 0 || flags[i] == 1 || flags[i] == 3
}

/// The `pages` descriptors from `start` on exist and are all empty.
pub open spec fn run_free(flags: Seq<u8>, start: int, pages: int) -> bool {
    &&& 0 <= start
    &&& start + pages <= flags.len()
    &&& forall|j: int| start <= j < start + pages ==> #[trigger] flags[j] == 0
}

/// `start` begins the first run of `pages` empty descriptors.
pub open spec fn first_fit(flags: Seq<u8>, start: int, pages: int) -> bool {
    &&& run_free(flags, start, pages)
    &&& forall|k: int| 0 <= k < start ==> !run_free(flags, k, pages)
}

/// The descriptors after the run of `pages` from `start` is handed out: all
/// but the last taken, the last taken and last.
pub open spec fn marked(flags: Seq<u8>, start: int, pages: int) -> Seq<u8> {
    Seq::new(
        flags.len(),
        |j: int|
            if start <= j < start + pages - 1 {
                1u8
            } else if j == start + pages - 1 {
                3u8
            } else {
                flags[j]
            },
    )
}

/// The descriptors from `start` to `end` form the tail of one allocation:
/// plain taken pages closed by the page that carries the last marker.
pub open spec fn is_run(flags: Seq<u8>, start: int, end: int) -> bool {
    &&& 0 <= start <= end < flags.len()
    &&& flags[end] == 3
    &&& forall|j: int| start <= j < end ==> #[trigger] flags[j] == 1
}

/// The descriptors with those from `start` to `end` inclusive emptied.
pub open spec fn cleared(flags: Seq<u8>, start: int, end: int) -> Seq<u8> {
    Seq::new(
        flags.len(),
        |j: int|
            if start <= j <= end {
                0u8
            } else {
                flags[j]
            },
    )
}

/// The words with those in `[from, to)` set to zero.
pub open spec fn zeroed(words: Seq<u64>, from: int, to: int) -> Seq<u64> {
    Seq::new(
        words.len(),
        |j: int|
            if from <= j < to {
                0u64
            } else {
                words[j]
            },
    )
}

/// Frame ownership and frame contents of one managed physical range.
pub struct PageAllocator {
    initialized: bool,
    region_start: u64,
    alloc_start: u64,
    descriptors: Vec<Page>,
    memory: Vec<u64>,
}

impl PageAllocator {
    /// The descriptor bytes, one per managed frame.
    pub closed spec fn flags(&self) -> Seq<u8> {
        Seq::new(self.descriptors@.len(), |i: int| self.descriptors@[i].flags)
    }

    /// The contents of the managed frames, 512 words per frame.
    pub closed spec fn words(&self) -> Seq<u64> {
        self.memory@
    }

    /// The physical address of the first managed frame.
    pub closed spec fn base(&self) -> u64 {
        self.alloc_start
    }

    /// The start of the region that the allocator was initialized with.
    pub closed spec fn region(&self) -> u64 {
        self.region_start
    }

    /// Whether `init` has run.
    pub closed spec fn ready(&self) -> bool {
        self.initialized
    }

    /// Number of managed frames.
    pub open spec fn pages(&self) -> int {
        self.flags().len() as int
    }

    /// The address one past the last managed byte.
    pub open spec fn limit(&self) -> int {
        self.base() + self.pages() * 4096
    }

    /// The invariant that every operation keeps.
    pub closed spec fn wf(&self) -> bool {
        &&& self.memory@.len() == self.descriptors@.len() * 512
        &&& self.alloc_start % 4096 == 0
        &&& self.alloc_start + self.descriptors@.len() * 4096 <= u64::MAX
        &&& descriptors_wf(self.flags())
        &&& !self.initialized ==> self.descriptors@.len() == 0
        &&& self.initialized ==> self.alloc_start > 0
    }

    /// What `wf` says in terms of the public view.
    pub proof fn lemma_wf(&self)
        requires
            self.wf(),
        ensures
            self.words().len() == self.pages() * 512,
            self.base() % 4096 == 0,
            self.limit() <= u64::MAX,
            descriptors_wf(self.flags()),
            !self.ready() ==> self.pages() == 0,
            self.ready() ==> self.base() > 0,
    {
    }

    /// An allocator that manages nothing yet: not initialized, without
    /// frames, with both addresses zero.
    pub fn new() -> (r: Self)
        ensures
            r.wf(),
            !r.ready(),
            r.pages() == 0,
            r.words().len() == 0,
            r.base() == 0,
            r.region() == 0,
    {
        PageAllocator {
            initialized: false,
            region_start: 0,
            alloc_start: 0,
            descriptors: Vec::new(),
            memory: Vec::new(),
        }
    }

    /// Whether the invariant holds: for an allocator that comes from where
    /// others could have changed it.
    pub fn is_consistent(&self) -> (r: bool)
        ensures
            r == self.wf(),
    {
        let n: usize = self.descriptors.len();
        let words: usize = self.memory.len();
        if n > usize::MAX / WORDS_PER_PAGE {
            proof {
                assert(n * 512 > usize::MAX);
                assert(words <= usize::MAX);
            }
            return false;
        }
        if words != n * WORDS_PER_PAGE {
            return false;
        }
        if self.alloc_start % PAGE_ALIGN != 0 || (n as u64) > (u64::MAX - self.alloc_start)
            / PAGE_ALIGN {
            return false;
        }
        if !self.initialized && n != 0 {
            return false;
        }
        if self.initialized && self.alloc_start == 0 {
            return false;
        }
        let mut i: usize = 0;
        while i < n
            invariant
                n == self.descriptors@.len(),
                i <= n,
                forall|k: int|
                    0 <= k < i ==> #[trigger] self.flags()[k] == 0 || self.flags()[k] == 1
                        || self.flags()[k] == 3,
            decreases n - i,
        {
            let f: u8 = self.descriptors[i].flags;
            if f != 0 && f != 1 && f != 3 {
                proof {
                    assert(self.flags()[i as int] == f);
                }
                return false;
            }
            proof {
                assert(self.flags()[i as int] == f);
            }
            i += 1;
        }
        true
    }

    /// Check if the page allocator is initialized.
    pub fn is_initialized(&self) -> (r: bool)
        ensures
            r == self.ready(),
    {
        self.initialized
    }

    /// Number of frames under management.
    pub fn max_pages(&self) -> (r: usize)
        ensures
            r == self.pages(),
    {
        self.descriptors.len()
    }

    /// The descriptor of the frame with index `index`.
    pub fn descriptor(&self, index: usize) -> (r: Page)
        requires
            index < self.pages(),
        ensures
            r.flags == self.flags()[index as int],
    {
        self.descriptors[index]
    }

    /// The address of the first managed frame.
    pub fn alloc_start(&self) -> (r: u64)
        ensures
            r == self.base(),
    {
        self.alloc_start
    }

    /// Initializes the allocation system over the region of `region_size`
    /// bytes at `region_start`: one empty descriptor and one zeroed frame per
    /// whole page of the size, the first frame at the region's start rounded
    /// up to a page boundary. The region does not start at address zero: no
    /// frame has the null address.
    pub fn init(&mut self, region_start: u64, region_size: u64)
        requires
            old(self).wf(),
            !old(self).ready(),
            region_start > 0,
            region_start + region_size + 4096 <= u64::MAX,
            (region_size / 4096) * 512 <= usize::MAX,
        ensures
            final(self).wf(),
            final(self).ready(),
            final(self).region() == region_start,
            final(self).base() == crate::allocator::align_up_spec(region_start as int, 4096),
            final(self).pages() == region_size / 4096,
            forall|i: int| 0 <= i < final(self).pages() ==> final(self).flags()[i] == 0,
            forall|i: int| 0 <= i < final(self).words().len() ==> final(self).words()[i] == 0,
    {
        proof {
            lemma_granules_are_pow2();
        }
        let max_pages: usize = (region_size / PAGE_ALIGN) as usize;
        let empty = Page { flags: PageBits::Empty.bits() };
        self.descriptors = vec![empty; max_pages];
        self.memory = vec![0u64; max_pages * WORDS_PER_PAGE];
        self.region_start = region_start;
        self.alloc_start = align_up(region_start, PAGE_ALIGN);
        self.initialized = true;
    }

    /// Whether the run of `pages` descriptors from `start` is free.
    fn run_is_free(&self, start: usize, pages: usize) -> (r: bool)
        requires
            self.wf(),
            start + pages <= self.pages(),
        ensures
            r == run_free(self.flags(), start as int, pages as int),
    {
        let max_pages: usize = self.descriptors.len();
        proof {
            assert(self.flags().len() == max_pages);
        }
        let end: usize = start + pages;
        let mut j: usize = start;
        while j < end
            invariant
                end == start + pages,
                self.wf(),
                start <= j <= start + pages <= self.pages(),
                forall|k: int| start <= k < j ==> #[trigger] self.flags()[k] == 0,
            decreases end - j,
        {
            if self.descriptors[j].is_taken() {
                proof {
                    lemma_descriptor_bytes();
                    assert(self.flags()[j as int] != 0);
                }
                return false;
            }
            proof {
                lemma_descriptor_bytes();
                assert(self.flags()[j as int] == 0);
            }
            j += 1;
        }
        true
    }

    /// Allocates a number of pages: the first run of `pages` free frames is
    /// marked taken, its final frame also last, and the address of its first
    /// frame is returned. Returns `None`, changing nothing, if there is no
    /// such run.
    pub fn alloc_pages(&mut self, pages: usize) -> (r: Option<u64>)
        requires
            old(self).wf(),
            old(self).ready(),
            pages > 0,
        ensures
            final(self).wf(),
            final(self).ready(),
            final(self).base() == old(self).base(),
            final(self).region() == old(self).region(),
            final(self).words() == old(self).words(),
            final(self).pages() == old(self).pages(),
            match r {
                Some(p) => {
                    let i = old(self).page_of(p);
                    &&& p == old(self).base() + 4096 * i
                    &&& first_fit(old(self).flags(), i, pages as int)
                    &&& final(self).flags() == marked(old(self).flags(), i, pages as int)
                },
                None => {
                    &&& forall|i: int| !run_free(old(self).flags(), i, pages as int)
                    &&& final(self).flags() == old(self).flags()
                },
            },
    {
        let max_pages: usize = self.descriptors.len();
        if pages > max_pages {
            return None;
        }
        let mut i: usize = 0;
        while i <= max_pages - pages
            invariant
                self.wf(),
                self.ready(),
                *self == *old(self),
                max_pages == self.pages(),
                pages <= max_pages,
                pages > 0,
                0 <= i <= max_pages - pages + 1,
                forall|k: int| 0 <= k < i ==> !run_free(self.flags(), k, pages as int),
            decreases max_pages - pages + 1 - i,
        {
            if self.run_is_free(i, pages) {
                let ghost before = self.flags();
                let mut j: usize = i;
                while j < i + pages - 1
                    invariant
                        self.memory == old(self).memory,
                        self.alloc_start == old(self).alloc_start,
                        self.region_start == old(self).region_start,
                        self.initialized == old(self).initialized,
                        self.descriptors@.len() == max_pages,
                        i + pages <= max_pages,
                        pages > 0,
                        i <= j <= i + pages - 1,
                        before == old(self).flags(),
                        before.len() == max_pages,
                        run_free(before, i as int, pages as int),
                        forall|k: int|
                            0 <= k < max_pages && !(i <= k < j) ==> self.flags()[k] == before[k],
                        forall|k: int| i <= k < j ==> self.flags()[k] == 1,
                    decreases i + pages - 1 - j,
                {
                    let ghost prev = self.flags();
                    let mut d = self.descriptors[j];
                    proof {
                        lemma_descriptor_bytes();
                        assert(prev[j as int] == before[j as int]);
                        assert(d.flags == 0);
                    }
                    d.set_flag(PageBits::Taken);
                    self.descriptors.set(j, d);
                    proof {
                        assert(self.flags() =~= prev.update(j as int, 1u8));
                    }
                    j += 1;
                }
                let ghost prev = self.flags();
                let mut d = self.descriptors[j];
                proof {
                    lemma_descriptor_bytes();
                    assert(prev[j as int] == before[j as int]);
                    assert(d.flags == 0);
                }
                d.set_flag(PageBits::TakenLast);
                self.descriptors.set(j, d);
                proof {
                    assert(self.flags() =~= prev.update(j as int, 3u8));
                }
                let p: u64 = self.alloc_start + PAGE_ALIGN * (i as u64);
                proof {
                    assert(self.flags() =~= marked(before, i as int, pages as int));
                    assert((p - old(self).base()) / 4096 == i);
                }
                return Some(p);
            }
            i += 1;
        }
        proof {
            assert forall|k: int| !run_free(self.flags(), k, pages as int) by {
                if 0 <= k && k + pages <= max_pages {
                    assert(k < i);
                }
            }
        }
        None
    }

    /// Allocates a number of pages as `alloc_pages` does and fills the whole
    /// allocated span with zeros.
    pub fn zalloc(&mut self, pages: usize) -> (r: Option<u64>)
        requires
            old(self).wf(),
            old(self).ready(),
            pages > 0,
        ensures
            final(self).wf(),
            final(self).ready(),
            final(self).base() == old(self).base(),
            final(self).region() == old(self).region(),
            final(self).pages() == old(self).pages(),
            match r {
                Some(p) => {
                    let i = old(self).page_of(p);
                    &&& p == old(self).base() + 4096 * i
                    &&& first_fit(old(self).flags(), i, pages as int)
                    &&& final(self).flags() == marked(old(self).flags(), i, pages as int)
                    &&& final(self).words() == zeroed(
                        old(self).words(),
                        i * 512,
                        (i + pages) * 512,
                    )
                },
                None => {
                    &&& forall|i: int| !run_free(old(self).flags(), i, pages as int)
                    &&& final(self).flags() == old(self).flags()
                    &&& final(self).words() == old(self).words()
                },
            },
    {
        let r = self.alloc_pages(pages);
        match r {
            Some(p) => {
                let max_pages: usize = self.descriptors.len();
                proof {
                    assert(self.flags().len() == max_pages);
                    assert((p - self.alloc_start) / 4096 == old(self).page_of(p));
                    assert(old(self).page_of(p) + pages <= max_pages);
                }
                let first: usize = ((p - self.alloc_start) / PAGE_ALIGN) as usize;
                let words: usize = self.memory.len();
                proof {
                    assert(first + pages <= max_pages);
                    assert(words == max_pages * 512);
                }
                let from: usize = first * WORDS_PER_PAGE;
                let to: usize = (first + pages) * WORDS_PER_PAGE;
                let mut w: usize = from;
                while w < to
                    invariant
                        self.alloc_start == old(self).alloc_start,
                        self.region_start == old(self).region_start,
                        self.initialized,
                        self.wf(),
                        self.flags() == marked(old(self).flags(), first as int, pages as int),
                        from <= w <= to <= self.memory@.len(),
                        self.memory@.len() == old(self).memory@.len(),
                        forall|k: int| from <= k < w ==> self.memory@[k] == 0,
                        forall|k: int|
                            0 <= k < self.memory@.len() && !(from <= k < w)
                                ==> self.memory@[k] == old(self).memory@[k],
                    decreases to - w,
                {
                    self.memory.set(w, 0);
                    w += 1;
                }
                proof {
                    assert(self.memory@ =~= zeroed(old(self).memory@, from as int, to as int));
                }
                Some(p)
            },
            None => None,
        }
    }

    /// The index of the frame that holds the byte at `ptr`.
    pub open spec fn page_of(&self, ptr: u64) -> int {
        (ptr - self.base()) / 4096
    }

    /// Whether `ptr` lies in the managed range and the descriptors from its
    /// page on are plain taken pages closed by one that is marked last.
    pub open spec fn owns_run(&self, ptr: u64) -> bool {
        &&& ptr != 0
        &&& self.base() <= ptr < self.limit()
        &&& exists|end: int| #[trigger] is_run(self.flags(), self.page_of(ptr), end)
    }

    /// Whether `dealloc` may be called on `ptr`.
    pub fn can_dealloc(&self, ptr: u64) -> (r: bool)
        requires
            self.wf(),
        ensures
            r == self.owns_run(ptr),
    {
        let max_pages: usize = self.descriptors.len();
        proof {
            assert(self.flags().len() == max_pages);
        }
        if ptr == 0 || ptr < self.alloc_start {
            return false;
        }
        let index: u64 = (ptr - self.alloc_start) / PAGE_ALIGN;
        if index >= max_pages as u64 {
            return false;
        }
        let start: usize = index as usize;
        proof {
            assert(start == self.page_of(ptr));
            assert(ptr < self.limit());
        }
        let mut p: usize = start;
        while p < max_pages
            invariant
                self.wf(),
                max_pages == self.flags().len(),
                ptr != 0,
                self.base() <= ptr < self.limit(),
                start == self.page_of(ptr),
                start <= p <= max_pages,
                forall|j: int| start <= j < p ==> #[trigger] self.flags()[j] == 1,
            decreases max_pages - p,
        {
            let d = self.descriptors[p];
            proof {
                lemma_descriptor_bytes();
                assert(self.flags()[p as int] == d.flags);
            }
            if !(d.is_taken() && !d.is_last()) {
                let r = d.is_last();
                proof {
                    assert(d.flags == 0 || d.flags == 1 || d.flags == 3);
                    if r {
                        assert(d.flags == 3);
                        assert(is_run(self.flags(), start as int, p as int));
                        assert(self.owns_run(ptr));
                    } else {
                        assert(d.flags == 0);
                        assert forall|end: int| !is_run(self.flags(), start as int, end) by {
                            if is_run(self.flags(), start as int, end) {
                                if end < p {
                                    assert(self.flags()[end] == 1);
                                } else if end > p {
                                    assert(self.flags()[p as int] == 1);
                                }
                            }
                        }
                    }
                }
                return r;
            }
            p += 1;
        }
        proof {
            assert forall|end: int| !is_run(self.flags(), start as int, end) by {
                if is_run(self.flags(), start as int, end) {
                    assert(self.flags()[end] == 1);
                }
            }
        }
        false
    }

    /// Frees the allocation whose pages start at `ptr`: every descriptor from
    /// the page of `ptr` up to and including the one marked last is emptied.
    pub fn dealloc(&mut self, ptr: u64)
        requires
            old(self).wf(),
            old(self).ready(),
            old(self).owns_run(ptr),
        ensures
            final(self).wf(),
            final(self).ready(),
            final(self).base() == old(self).base(),
            final(self).region() == old(self).region(),
            final(self).words() == old(self).words(),
            final(self).pages() == old(self).pages(),
            forall|end: int| #[trigger]
                is_run(old(self).flags(), old(self).page_of(ptr), end) ==> final(self).flags()
                    == cleared(old(self).flags(), old(self).page_of(ptr), end),
    {
        let max_pages: usize = self.descriptors.len();
        proof {
            assert(self.flags().len() == max_pages);
            let e = choose|e: int| is_run(self.flags(), self.page_of(ptr), e);
            assert(is_run(self.flags(), self.page_of(ptr), e));
            assert((ptr - self.alloc_start) / 4096 < max_pages);
        }
        let start: usize = ((ptr - self.alloc_start) / PAGE_ALIGN) as usize;
        let ghost before = self.flags();
        let ghost end = choose|end: int| is_run(before, start as int, end);
        proof {
            assert(before.len() == max_pages);
            assert forall|e: int| is_run(before, start as int, e) implies e == end by {
                if e < end {
                    assert(before[e] == 1);
                } else if e > end {
                    assert(before[end] == 1);
                }
            }
        }
        let mut p: usize = start;
        while self.descriptors[p].is_taken() && !self.descriptors[p].is_last()
            invariant
                self.memory == old(self).memory,
                self.alloc_start == old(self).alloc_start,
                self.region_start == old(self).region_start,
                self.initialized == old(self).initialized,
                self.descriptors@.len() == max_pages,
                before == old(self).flags(),
                before.len() == max_pages,
                descriptors_wf(before),
                is_run(before, start as int, end),
                start <= p <= end,
                forall|k: int| 0 <= k < max_pages && !(start <= k < p) ==> self.flags()[k] == before[k],
                forall|k: int| start <= k < p ==> self.flags()[k] == 0,
            decreases end - p,
        {
            proof {
                lemma_descriptor_bytes();
                assert(self.flags()[p as int] == before[p as int]);
                assert(p < end);
            }
            let ghost prev = self.flags();
            let mut d = self.descriptors[p];
            d.clear();
            self.descriptors.set(p, d);
            proof {
                assert(self.flags() =~= prev.update(p as int, 0u8));
            }
            p += 1;
        }
        proof {
            lemma_descriptor_bytes();
            assert(self.flags()[p as int] == before[p as int]);
            assert(p == end);
        }
        let ghost prev = self.flags();
        let mut d = self.descriptors[p];
        d.clear();
        self.descriptors.set(p, d);
        proof {
            assert(self.flags() =~= prev.update(p as int, 0u8));
            assert(self.flags() =~= cleared(before, start as int, end));
        }
    }

    /// Whether a whole word lies at `addr` inside the managed frames.
    pub open spec fn holds_word(&self, addr: u64) -> bool {
        &&& self.base() <= addr
        &&& addr % 8 == 0
        &&& addr + 8 <= self.limit()
    }

    /// The position in `words` of the word at `addr`.
    pub open spec fn word_index(&self, addr: u64) -> int {
        (addr - self.base()) / 8
    }

    /// Whether `read_word` and `write_word` may be called on `addr`.
    pub fn has_word(&self, addr: u64) -> (r: bool)
        requires
            self.wf(),
        ensures
            r == self.holds_word(addr),
    {
        let max_pages: usize = self.descriptors.len();
        proof {
            assert(self.flags().len() == max_pages);
        }
        let limit: u64 = self.alloc_start + (max_pages as u64) * PAGE_ALIGN;
        addr >= self.alloc_start && addr % 8 == 0 && addr <= limit && limit - addr >= 8
    }

    /// The word stored at `addr`.
    pub fn read_word(&self, addr: u64) -> (r: u64)
        requires
            self.wf(),
            self.holds_word(addr),
        ensures
            r == self.words()[self.word_index(addr)],
            0 <= self.word_index(addr) < self.words().len(),
    {
        let words: usize = self.memory.len();
        proof {
            assert(self.flags().len() == self.descriptors@.len());
            assert((addr - self.alloc_start) / 8 < words);
        }
        let index: usize = ((addr - self.alloc_start) / 8) as usize;
        self.memory[index]
    }

    /// Stores `value` at `addr`.
    pub fn write_word(&mut self, addr: u64, value: u64)
        requires
            old(self).wf(),
            old(self).holds_word(addr),
        ensures
            final(self).wf(),
            final(self).ready() == old(self).ready(),
            final(self).base() == old(self).base(),
            final(self).region() == old(self).region(),
            final(self).flags() == old(self).flags(),
            0 <= old(self).word_index(addr) < old(self).words().len(),
            final(self).words() == old(self).words().update(old(self).word_index(addr), value),
    {
        let words: usize = self.memory.len();
        proof {
            assert(self.flags().len() == self.descriptors@.len());
            assert((addr - self.alloc_start) / 8 < words);
        }
        let index: usize = ((addr - self.alloc_start) / 8) as usize;
        self.memory.set(index, value);
        proof {
            assert(self.flags() =~= old(self).flags());
        }
    }

    /// What `alloc_pages` does to an allocator and returns: `after` and `r`
    /// are its outcome on `self` for a request of `pages` frames.
    pub open spec fn allocates(&self, after: &PageAllocator, pages: usize, r: Option<u64>) -> bool {
        &&& after.wf()
        &&& after.ready()
        &&& after.base() == self.base()
        &&& after.region() == self.region()
        &&& after.words() == self.words()
        &&& after.pages() == self.pages()
        &&& match r {
            Some(p) => {
                let i = self.page_of(p);
                &&& p == self.base() + 4096 * i
                &&& first_fit(self.flags(), i, pages as int)
                &&& after.flags() == marked(self.flags(), i, pages as int)
            },
            None => {
                &&& forall|i: int| !run_free(self.flags(), i, pages as int)
                &&& after.flags() == self.flags()
            },
        }
    }

    /// What `zalloc` does to an allocator and returns.
    pub open spec fn zallocates(&self, after: &PageAllocator, pages: usize, r: Option<u64>) -> bool {
        &&& after.wf()
        &&& after.ready()
        &&& after.base() == self.base()
        &&& after.region() == self.region()
        &&& after.pages() == self.pages()
        &&& match r {
            Some(p) => {
                let i = self.page_of(p);
                &&& p == self.base() + 4096 * i
                &&& first_fit(self.flags(), i, pages as int)
                &&& after.flags() == marked(self.flags(), i, pages as int)
                &&& after.words() == zeroed(self.words(), i * 512, (i + pages) * 512)
            },
            None => {
                &&& forall|i: int| !run_free(self.flags(), i, pages as int)
                &&& after.flags() == self.flags()
                &&& after.words() == self.words()
            },
        }
    }

    /// What `dealloc` does to an allocator.
    pub open spec fn deallocates(&self, after: &PageAllocator, ptr: u64) -> bool {
        &&& after.wf()
        &&& after.ready()
        &&& after.base() == self.base()
        &&& after.region() == self.region()
        &&& after.words() == self.words()
        &&& after.pages() == self.pages()
        &&& forall|end: int| #[trigger]
            is_run(self.flags(), self.page_of(ptr), end) ==> after.flags() == cleared(
                self.flags(),
                self.page_of(ptr),
                end,
            )
    }

    /// Allocates a number of pages, for an allocator that comes from where
    /// others could have changed it: where the allocator is consistent and
    /// initialized this is `alloc_pages`; otherwise nothing changes and the
    /// result is `None`.
    pub fn try_alloc_pages(&mut self, pages: usize) -> (r: Option<u64>)
        requires
            pages > 0,
        ensures
            if old(self).wf() && old(self).ready() {
                old(self).allocates(final(self), pages, r)
            } else {
                r is None && *final(self) == *old(self)
            },
    {
        if self.is_consistent() && self.is_initialized() {
            self.alloc_pages(pages)
        } else {
            None
        }
    }

    /// Allocates a number of zeroed pages, for an allocator that comes from
    /// where others could have changed it: where the allocator is consistent
    /// and initialized this is `zalloc`; otherwise nothing changes and the
    /// result is `None`.
    pub fn try_zalloc(&mut self, pages: usize) -> (r: Option<u64>)
        requires
            pages > 0,
        ensures
            if old(self).wf() && old(self).ready() {
                old(self).zallocates(final(self), pages, r)
            } else {
                r is None && *final(self) == *old(self)
            },
    {
        if self.is_consistent() && self.is_initialized() {
            self.zalloc(pages)
        } else {
            None
        }
    }

    /// Frees the allocation at `ptr`, for an allocator that comes from where
    /// others could have changed it: where the allocator is consistent and
    /// initialized and `ptr` is an allocation this is `dealloc`, and the
    /// result is `true`; otherwise nothing changes and the result is `false`.
    pub fn try_dealloc(&mut self, ptr: u64) -> (r: bool)
        ensures
            r == (old(self).wf() && old(self).ready() && old(self).owns_run(ptr)),
            if r {
                old(self).deallocates(final(self), ptr)
            } else {
                *final(self) == *old(self)
            },
    {
        if self.is_consistent() && self.is_initialized() && self.can_dealloc(ptr) {
            self.dealloc(ptr);
            true
        } else {
            false
        }
    }
}

} // verus!
