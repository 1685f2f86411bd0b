//! The page allocation table: which runs of frames are handed out.

use crate::page::lemma_descriptor_bytes;
use crate::page_allocator::{descriptors_wf, PageAllocator};
use crate::page_laws::{free_between, free_pages};
use vstd::prelude::*;

verus! {

/// One allocation as the table lists it.
#[derive(Debug, Clone, Copy, PartialEq, Eq, Structural)]
pub struct PageRun {
    /// Address of the first byte of the allocation.
    pub start: u64,
    /// Address of the last byte of the allocation.
    pub end: u64,
    /// Number of frames in the allocation.
    pub pages: usize,
}

/// The page allocation table and its totals.
#[derive(Debug, Clone)]
pub struct PageAllocations {
    pub runs: Vec<PageRun>,
    /// Frames that belong to a listed allocation.
    pub allocated: usize,
    /// The remaining frames.
    pub free: usize,
}

/// The index at which an allocation that holds the frame `from` ends: the
/// first frame from there on that is marked last, or the final frame of the
/// range where none is.
pub open spec fn run_last(flags: Seq<u8>, from: int) -> int
    decreases flags.len() - from,
{
    if from + 1 >= flags.len() || flags[from] == 3 {
        from
    } else {
        run_last(flags, from + 1)
    }
}

/// The allocations from frame `from` on, each as its first and last index:
/// free frames are passed over, a taken frame starts an allocation.
pub open spec fn runs_from(flags: Seq<u8>, from: int) -> Seq<(int, int)>
    decreases flags.len() - from,
    via runs_from_decreases
{
    if from < 0 || from >= flags.len() {
        Seq::empty()
    } else if flags[from] == 0 {
        runs_from(flags, from + 1)
    } else {
        seq![(from, run_last(flags, from))] + runs_from(flags, run_last(flags, from) + 1)
    }
}

#[via_fn]
proof fn runs_from_decreases(flags: Seq<u8>, from: int) {
    if 0 <= from < flags.len() {
        lemma_run_last_bounds(flags, from);
    }
}

/// An allocation ends at or after the frame it is entered at, inside the range.
pub proof fn lemma_run_last_bounds(flags: Seq<u8>, from: int)
    requires
        0 <= from < flags.len(),
    ensures
        from <= run_last(flags, from) < flags.len(),
    decreases flags.len() - from,
{
    if !(from + 1 >= flags.len() || flags[from] == 3) {
        lemma_run_last_bounds(flags, from + 1);
    }
}

/// Frames in the listed allocations.
pub open spec fn run_pages(runs: Seq<(int, int)>) -> int
    decreases runs.len(),
{
    if runs.len() == 0 {
        0
    } else {
        runs.last().1 - runs.last().0 + 1 + run_pages(runs.drop_last())
    }
}

/// The table entry for the allocation from frame `first` to frame `last`.
pub open spec fn run_entry(base: u64, run: (int, int)) -> PageRun {
    PageRun {
        start: (base + 4096 * run.0) as u64,
        end: (base + 4096 * run.1 + 4095) as u64,
        pages: (run.1 - run.0 + 1) as usize,
    }
}

impl PageAllocator {
    /// The descriptor bytes, one per frame.
    pub fn descriptor_bytes(&self) -> (r: Vec<u8>)
        requires
            self.wf(),
        ensures
            r@ == self.flags(),
    {
        let n: usize = self.max_pages();
        let mut r: Vec<u8> = Vec::new();
        let mut i: usize = 0;
        while i < n
            invariant
                n == self.pages(),
                i <= n,
                r@.len() == i,
                forall|k: int| 0 <= k < i ==> r@[k] == self.flags()[k],
            decreases n - i,
        {
            r.push(self.descriptor(i).flags);
            i += 1;
        }
        proof {
            assert(r@ =~= self.flags());
        }
        r
    }

    /// Number of free frames.
    pub fn free_page_count(&self) -> (r: usize)
        requires
            self.wf(),
        ensures
            r == free_pages(self.flags()),
    {
        let n: usize = self.max_pages();
        let mut count: usize = 0;
        let mut i: usize = 0;
        while i < n
            invariant
                self.wf(),
                n == self.pages(),
                i <= n,
                count <= i,
                count == free_between(self.flags(), 0, i as int),
            decreases n - i,
        {
            proof {
                self.lemma_wf();
                lemma_descriptor_bytes();
            }
            if self.descriptor(i).is_free() {
                count += 1;
            }
            i += 1;
        }
        count
    }

    /// The page allocation table: every allocation in address order with
    /// its first and last byte and its number of frames, and how many
    /// frames are allocated and free.
    pub fn allocations(&self) -> (r: PageAllocations)
        requires
            self.wf(),
        ensures
            r.runs@ == runs_from(self.flags(), 0).map_values(
                |run: (int, int)| run_entry(self.base(), run),
            ),
            r.allocated == run_pages(runs_from(self.flags(), 0)),
            r.allocated + r.free == self.pages(),
    {
        let n: usize = self.max_pages();
        let base: u64 = self.alloc_start();
        let ghost flags = self.flags();
        let ghost mut done: Seq<(int, int)> = Seq::empty();
        let mut runs: Vec<PageRun> = Vec::new();
        let mut num: usize = 0;
        let mut beg: usize = 0;
        proof {
            self.lemma_wf();
        }
        while beg < n
            invariant
                self.wf(),
                flags == self.flags(),
                n == flags.len(),
                base == self.base(),
                base + n * 4096 <= u64::MAX,
                descriptors_wf(flags),
                beg <= n,
                num <= beg,
                num == run_pages(done),
                runs_from(flags, 0) == done + runs_from(flags, beg as int),
                runs@ == done.map_values(|run: (int, int)| run_entry(base, run)),
            decreases n - beg,
        {
            proof {
                lemma_descriptor_bytes();
            }
            if self.descriptor(beg).is_taken() {
                let start: usize = beg;
                proof {
                    lemma_run_last_bounds(flags, start as int);
                }
                while beg + 1 < n && !self.descriptor(beg).is_last()
                    invariant
                        self.wf(),
                        flags == self.flags(),
                        n == flags.len(),
                        descriptors_wf(flags),
                        start <= beg < n,
                        run_last(flags, start as int) == run_last(flags, beg as int),
                    decreases n - beg,
                {
                    proof {
                        lemma_descriptor_bytes();
                    }
                    beg += 1;
                }
                proof {
                    lemma_descriptor_bytes();
                    assert(run_last(flags, beg as int) == beg);
                }
                let entry = PageRun {
                    start: base + 4096 * (start as u64),
                    end: base + 4096 * (beg as u64) + 4095,
                    pages: beg - start + 1,
                };
                runs.push(entry);
                proof {
                    let run = (start as int, beg as int);
                    let next = done.push(run);
                    assert(entry == run_entry(base, run));
                    assert(next.drop_last() =~= done);
                    assert(next.last() == run);
                    assert(next + runs_from(flags, beg + 1) =~= done + (seq![run] + runs_from(
                        flags,
                        beg + 1,
                    )));
                    assert(runs@ =~= next.map_values(|run: (int, int)| run_entry(base, run)));
                    done = next;
                }
                num += beg - start + 1;
            }
            beg += 1;
        }
        proof {
            assert(runs_from(flags, beg as int) =~= Seq::<(int, int)>::empty());
            assert(done + Seq::<(int, int)>::empty() =~= done);
        }
        PageAllocations { runs, allocated: num, free: n - num }
    }
}

} // verus!
