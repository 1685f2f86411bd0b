//! Three-level page tables with 9-bit indices per level and 4 KiB pages.

pub mod entry;
pub mod laws;
pub mod laws_levels;
pub mod laws_ranges;
pub mod mapping;
pub mod table;
pub mod tree;
