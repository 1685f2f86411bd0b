//! Laws of the page frame allocator, over its descriptor bytes.

use crate::page_allocator::{cleared, first_fit, is_run, marked, run_free};
use vstd::prelude::*;

verus! {

/// The descriptors after a request for `pages` frames is served by first fit
/// and the run is freed again at once; unchanged if no run fits.
pub open spec fn alloc_free_pair(flags: Seq<u8>, pages: int) -> Seq<u8> {
    if exists|i: int| first_fit(flags, i, pages) {
        let i = choose|i: int| first_fit(flags, i, pages);
        cleared(marked(flags, i, pages), i, i + pages - 1)
    } else {
        flags
    }
}

/// The descriptors after one such pair for each request in turn.
pub open spec fn alloc_free_pairs(flags: Seq<u8>, requests: Seq<int>) -> Seq<u8>
    decreases requests.len(),
{
    if requests.len() == 0 {
        flags
    } else {
        alloc_free_pairs(alloc_free_pair(flags, requests[0]), requests.drop_first())
    }
}

/// A run that was just handed out can be freed through its first page, and
/// freeing it gives back the descriptors as they were.
pub proof fn lemma_alloc_dealloc_restores(flags: Seq<u8>, start: int, pages: int)
    requires
        pages > 0,
        run_free(flags, start, pages),
    ensures
        is_run(marked(flags, start, pages), start, start + pages - 1),
        cleared(marked(flags, start, pages), start, start + pages - 1) == flags,
{
    assert(cleared(marked(flags, start, pages), start, start + pages - 1) =~= flags);
}

/// Symmetry of allocation and release: after any sequence of requests, each
/// freed before the next is made, the descriptors are what they were.
pub proof fn lemma_alloc_dealloc_symmetry(flags: Seq<u8>, requests: Seq<int>)
    requires
        forall|k: int| 0 <= k < requests.len() ==> requests[k] > 0,
    ensures
        alloc_free_pairs(flags, requests) == flags,
    decreases requests.len(),
{
    if requests.len() > 0 {
        let pages = requests[0];
        if exists|i: int| first_fit(flags, i, pages) {
            let i = choose|i: int| first_fit(flags, i, pages);
            lemma_alloc_dealloc_restores(flags, i, pages);
        }
        assert(alloc_free_pair(flags, pages) == flags);
        let rest = requests.drop_first();
        assert forall|k: int| 0 <= k < rest.len() implies rest[k] > 0 by {
            assert(rest[k] == requests[k + 1]);
        }
        lemma_alloc_dealloc_symmetry(flags, rest);
    }
}

/// Number of empty descriptors among those in `[from, to)`.
pub open spec fn free_between(flags: Seq<u8>, from: int, to: int) -> nat
    decreases to - from,
{
    if from >= to {
        0
    } else {
        free_between(flags, from, to - 1) + if flags[to - 1] == 0 {
            1nat
        } else {
            0nat
        }
    }
}

/// Number of free frames.
pub open spec fn free_pages(flags: Seq<u8>) -> nat {
    free_between(flags, 0, flags.len() as int)
}

/// The count over a range is the sum of the counts over its two parts.
pub proof fn lemma_free_between_split(flags: Seq<u8>, from: int, mid: int, to: int)
    requires
        from <= mid <= to,
    ensures
        free_between(flags, from, to) == free_between(flags, from, mid) + free_between(
            flags,
            mid,
            to,
        ),
    decreases to - mid,
{
    if mid < to {
        lemma_free_between_split(flags, from, mid, to - 1);
    }
}

/// A free run of `pages` descriptors counts `pages` free frames.
pub proof fn lemma_free_run_count(flags: Seq<u8>, start: int, pages: int)
    requires
        pages >= 0,
        run_free(flags, start, pages),
    ensures
        free_between(flags, start, start + pages) == pages,
    decreases pages,
{
    if pages > 0 {
        assert(run_free(flags, start, pages - 1)) by {
            assert forall|j: int| start <= j < start + pages - 1 implies #[trigger] flags[j] == 0 by {}
        }
        lemma_free_run_count(flags, start, pages - 1);
        assert(flags[start + pages - 1] == 0);
    }
}

/// Exhaustion: a request for more frames than are free finds no run, so the
/// allocator answers it with `None`.
pub proof fn lemma_exhaustion(flags: Seq<u8>, pages: int)
    requires
        pages > free_pages(flags),
    ensures
        forall|i: int| !run_free(flags, i, pages),
{
    assert forall|i: int| !run_free(flags, i, pages) by {
        if run_free(flags, i, pages) {
            lemma_free_run_count(flags, i, pages);
            lemma_free_between_split(flags, 0, i, flags.len() as int);
            lemma_free_between_split(flags, i, i + pages, flags.len() as int);
        }
    }
}

} // verus!
