//! State shared between harts behind a spin lock.
//!
//! A hart that cannot take the lock waits in a busy loop: there is no
//! scheduler to yield to.

use crate::page_allocator::PageAllocator;
use vstd::prelude::*;

verus! {

/// `spin::mutex::Mutex`, the lock itself. Nothing is known of what it holds
/// until it is locked.
#[verifier::external_type_specification]
#[verifier::external_body]
#[verifier::reject_recursive_types(T)]
#[verifier::reject_recursive_types(R)]
pub struct ExMutex<T: ?Sized, R>(spin::mutex::Mutex<T, R>);

/// `spin::mutex::MutexGuard`, the proof that the lock is held: while it
/// lives, no other hart reads or writes what the lock protects.
#[verifier::external_type_specification]
#[verifier::external_body]
#[verifier::reject_recursive_types(T)]
pub struct ExMutexGuard<'a, T: 'a + ?Sized>(spin::mutex::MutexGuard<'a, T>);

/// `spin::relax::Spin`, the strategy of waiting in a busy loop.
#[verifier::external_type_specification]
#[verifier::external_body]
pub struct ExSpin(spin::relax::Spin);

/// A value that is reached only through its lock.
#[verifier::reject_recursive_types(T)]
pub struct Locked<T> {
    pub value: spin::mutex::Mutex<T, spin::relax::Spin>,
}

impl<T> Locked<T> {
    /// Calls `spin::mutex::Mutex::new`, which wraps the value in a lock
    /// that is not held. Nothing is claimed of the result.
    #[verifier::external_body]
    pub fn new(inner: T) -> Self {
        Self { value: spin::mutex::Mutex::new(inner) }
    }

    /// Calls `spin::mutex::Mutex::lock`, which waits until the lock is free,
    /// takes it, and returns the guard. Nothing is claimed of what the guard
    /// gives access to: another hart may have changed it.
    #[verifier::external_body]
    pub fn lock(&self) -> spin::mutex::MutexGuard<'_, T> {
        self.value.lock()
    }
}

/// Calls `deref_mut` of `spin::mutex::MutexGuard`, which gives access to the
/// value that the held lock protects. Nothing is claimed of the value.
#[verifier::external_body]
pub(crate) fn guarded<'a, 'b, T>(guard: &'a mut spin::mutex::MutexGuard<'b, T>) -> &'a mut T {
    &mut **guard
}

/// The page frame allocator that all harts share. Every operation holds the
/// lock from its first look at the allocator to its last change.
pub struct SharedPages {
    pool: Locked<PageAllocator>,
}

impl SharedPages {
    /// Puts an allocator behind a lock.
    pub fn new(mem: PageAllocator) -> (r: Self) {
        SharedPages { pool: Locked::new(mem) }
    }

    /// Allocates a number of pages under the lock: takes the lock and calls
    /// `try_alloc_pages` on the allocator behind it, which says what is
    /// returned for each state of the allocator. What other harts did to
    /// the allocator before is not known here, so no run is promised. An
    /// address that is returned is the address of a frame, never null.
    pub fn alloc_pages(&self, pages: usize) -> (r: Option<u64>)
        requires
            pages > 0,
        ensures
            r matches Some(p) ==> p % 4096 == 0 && p != 0,
    {
        let mut guard = self.pool.lock();
        let mem = guarded(&mut guard);
        let ghost before = *mem;
        let r = mem.try_alloc_pages(pages);
        proof {
            if r is Some {
                before.lemma_wf();
            }
        }
        r
    }

    /// Allocates a number of zeroed pages under the lock: takes the lock
    /// and calls `try_zalloc` on the allocator behind it.
    pub fn zalloc(&self, pages: usize) -> (r: Option<u64>)
        requires
            pages > 0,
        ensures
            r matches Some(p) ==> p % 4096 == 0 && p != 0,
    {
        let mut guard = self.pool.lock();
        let mem = guarded(&mut guard);
        let ghost before = *mem;
        let r = mem.try_zalloc(pages);
        proof {
            if r is Some {
                before.lemma_wf();
            }
        }
        r
    }

    /// Frees the allocation at `ptr` under the lock, if it is one: takes
    /// the lock and calls `try_dealloc` on the allocator behind it. Returns
    /// whether it was freed.
    pub fn dealloc(&self, ptr: u64) -> (r: bool)
        ensures
            r ==> ptr != 0,
    {
        let mut guard = self.pool.lock();
        let mem = guarded(&mut guard);
        mem.try_dealloc(ptr)
    }
}

} // verus!
