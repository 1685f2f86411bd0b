//! Memory management and trap dispatch core of a small multi-core RV64 kernel.
//!
//! Every address and every memory word is a 64-bit value. All state that the
//! hardware design keeps in globals is held in explicit context objects here,
//! so that independent instances can exist side by side.

pub mod alloc_list;
pub mod allocator;
pub mod consts;
pub mod heap_laws;
pub mod heap_model;
pub mod interrupt;
pub mod kernel_allocator;
pub mod lock;
pub mod logger;
pub mod page;
pub mod page_allocator;
pub mod page_laws;
pub mod page_report;
pub mod paging_sv39;
pub mod satp;
pub mod sbi;
pub mod trap;
