use riskyos::allocator::{align_up, block_size_list_index};
use riskyos::consts::{get_page_align, get_page_size, get_pages_size};
use riskyos::page::{Page, PageBits};
use riskyos::kernel_allocator::KernelHeap;
use riskyos::page_allocator::PageAllocator;
use riskyos::page_report::PageRun;

const BASE: u64 = 0x8000_0000;

fn pool(pages: u64) -> PageAllocator {
    let mut a = PageAllocator::new();
    assert!(!a.is_initialized());
    a.init(BASE, pages * 4096);
    assert!(a.is_initialized());
    a
}

#[test]
fn constants_have_their_values() {
    assert_eq!(get_page_align(), 4096);
    assert_eq!(get_page_size(), 512);
    assert_eq!(get_pages_size(), 512 * 8 * 3);
}

#[test]
fn align_up_rounds_to_the_next_multiple() {
    assert_eq!(align_up(0, 8), 0);
    assert_eq!(align_up(1, 8), 8);
    assert_eq!(align_up(8, 8), 8);
    assert_eq!(align_up(9, 8), 16);
    assert_eq!(align_up(4095, 4096), 4096);
    assert_eq!(align_up(4096, 4096), 4096);
    assert_eq!(align_up(4097, 4096), 8192);
}

#[test]
fn page_flags_set_and_clear() {
    let mut p = Page { flags: 0 };
    assert!(p.is_free());
    assert!(!p.is_taken());
    assert!(!p.is_last());
    p.set_flag(PageBits::Taken);
    assert_eq!(p.flags, 1);
    assert!(p.is_taken());
    assert!(!p.is_last());
    p.set_flag(PageBits::Last);
    assert_eq!(p.flags, 3);
    assert!(p.is_last());
    p.clear_flag(PageBits::Taken);
    assert_eq!(p.flags, 2);
    assert!(p.is_free());
    p.set_flag(PageBits::TakenLast);
    assert_eq!(p.flags, 3);
    p.clear();
    assert_eq!(p.flags, 0);
    assert_eq!(PageBits::Empty.bits(), 0);
    assert_eq!(PageBits::Taken.bits(), 1);
    assert_eq!(PageBits::Last.bits(), 2);
    assert_eq!(PageBits::TakenLast.bits(), 3);
}

#[test]
fn init_rounds_the_base_up_and_counts_whole_pages() {
    let mut a = PageAllocator::new();
    a.init(BASE + 1, 3 * 4096 + 100);
    assert_eq!(a.alloc_start(), BASE + 4096);
    assert_eq!(a.max_pages(), 3);
    assert_eq!(a.alloc_pages(1), Some(BASE + 4096));
}

#[test]
fn first_fit_reuses_the_freed_run() {
    let mut a = pool(8);
    let p0 = a.alloc_pages(2).unwrap();
    assert_eq!(p0, BASE);
    let p1 = a.alloc_pages(3).unwrap();
    assert_eq!(p1, p0 + 2 * 4096);
    assert!(a.can_dealloc(p0));
    a.dealloc(p0);
    assert_eq!(a.alloc_pages(2), Some(p0));
}

#[test]
fn alloc_then_dealloc_restores_the_descriptors() {
    let mut a = pool(8);
    let keep = a.alloc_pages(1).unwrap();
    let before = a.descriptor_bytes();
    for n in [1usize, 3, 7, 2] {
        let p = a.alloc_pages(n).unwrap();
        assert_eq!(p, keep + 4096);
        assert_ne!(a.descriptor_bytes(), before);
        a.dealloc(p);
        assert_eq!(a.descriptor_bytes(), before);
    }
}

#[test]
fn alloc_marks_all_but_the_last_page_taken() {
    let mut a = pool(4);
    a.alloc_pages(3).unwrap();
    assert_eq!(a.descriptor_bytes(), vec![1, 1, 3, 0]);
}

#[test]
fn exhaustion_returns_none_and_changes_nothing() {
    let mut a = pool(8);
    assert_eq!(a.alloc_pages(9), None);
    a.alloc_pages(5).unwrap();
    let before = a.descriptor_bytes();
    assert_eq!(a.free_page_count(), 3);
    assert_eq!(a.alloc_pages(4), None);
    assert_eq!(a.descriptor_bytes(), before);
    assert_eq!(a.alloc_pages(3), Some(BASE + 5 * 4096));
    assert_eq!(a.alloc_pages(1), None);
}

#[test]
fn the_whole_pool_can_be_one_allocation() {
    let mut a = pool(8);
    assert_eq!(a.alloc_pages(8), Some(BASE));
    assert_eq!(a.free_page_count(), 0);
}

#[test]
fn a_fragmented_pool_has_no_run_though_pages_are_free() {
    let mut a = pool(4);
    let p0 = a.alloc_pages(1).unwrap();
    let _p1 = a.alloc_pages(1).unwrap();
    let p2 = a.alloc_pages(1).unwrap();
    a.dealloc(p0);
    a.dealloc(p2);
    assert_eq!(a.descriptor_bytes(), vec![0, 3, 0, 0]);
    assert_eq!(a.alloc_pages(3), None);
    assert_eq!(a.alloc_pages(2), Some(BASE + 2 * 4096));
}

#[test]
fn can_dealloc_tells_which_pointers_are_allocations() {
    let mut a = pool(4);
    let p = a.alloc_pages(2).unwrap();
    assert!(a.can_dealloc(p));
    assert!(a.can_dealloc(p + 4096));
    assert!(!a.can_dealloc(p + 2 * 4096));
    assert!(!a.can_dealloc(0));
    assert!(!a.can_dealloc(BASE - 4096));
    assert!(!a.can_dealloc(BASE + 4 * 4096));
    a.dealloc(p);
    assert!(!a.can_dealloc(p));
}

#[test]
fn zalloc_zeroes_the_whole_span() {
    let mut a = pool(4);
    let p = a.alloc_pages(2).unwrap();
    a.write_word(p, 7);
    a.write_word(p + 2 * 4096 - 8, 9);
    a.write_word(p + 2 * 4096, 11);
    a.dealloc(p);
    let q = a.zalloc(2).unwrap();
    assert_eq!(q, p);
    assert_eq!(a.read_word(p), 0);
    assert_eq!(a.read_word(p + 2 * 4096 - 8), 0);
    assert_eq!(a.read_word(p + 2 * 4096), 11);
}

#[test]
fn words_are_read_back_as_written() {
    let mut a = pool(2);
    assert!(a.has_word(BASE));
    assert!(a.has_word(BASE + 2 * 4096 - 8));
    assert!(!a.has_word(BASE + 2 * 4096));
    assert!(!a.has_word(BASE + 4));
    assert!(!a.has_word(BASE - 8));
    a.write_word(BASE + 16, 0xdead_beef);
    assert_eq!(a.read_word(BASE + 16), 0xdead_beef);
    assert_eq!(a.read_word(BASE + 8), 0);
}

#[test]
fn block_sizes_are_chosen_by_the_larger_of_size_and_alignment() {
    assert_eq!(block_size_list_index(1, 1), Some(0));
    assert_eq!(block_size_list_index(8, 8), Some(0));
    assert_eq!(block_size_list_index(9, 8), Some(1));
    assert_eq!(block_size_list_index(8, 16), Some(1));
    assert_eq!(block_size_list_index(100, 4), Some(4));
    assert_eq!(block_size_list_index(2048, 1), Some(8));
    assert_eq!(block_size_list_index(2049, 1), None);
    assert_eq!(block_size_list_index(1, 4096), None);
    assert_eq!(block_size_list_index(0, 0), Some(0));
}

#[test]
fn the_allocation_table_lists_runs_in_address_order() {
    let mut a = pool(8);
    let p0 = a.alloc_pages(2).unwrap();
    let p1 = a.alloc_pages(1).unwrap();
    let p2 = a.alloc_pages(3).unwrap();
    a.dealloc(p1);
    let table = a.allocations();
    assert_eq!(
        table.runs,
        vec![
            PageRun { start: p0, end: p0 + 2 * 4096 - 1, pages: 2 },
            PageRun { start: p2, end: p2 + 3 * 4096 - 1, pages: 3 },
        ]
    );
    assert_eq!(table.allocated, 5);
    assert_eq!(table.free, 3);
    assert_eq!(a.free_page_count(), 3);
}

#[test]
fn the_allocation_table_of_an_empty_pool_is_empty() {
    let a = pool(4);
    let table = a.allocations();
    assert!(table.runs.is_empty());
    assert_eq!(table.allocated, 0);
    assert_eq!(table.free, 4);
    assert_eq!(a.descriptor(0).flags, 0);
}

#[test]
fn a_run_freed_in_the_middle_is_listed_from_its_first_taken_page() {
    let mut a = pool(4);
    let p = a.alloc_pages(3).unwrap();
    a.dealloc(p + 4096);
    assert_eq!(a.descriptor_bytes(), vec![1, 0, 0, 0]);
    let table = a.allocations();
    assert_eq!(table.runs, vec![PageRun { start: p, end: p + 4 * 4096 - 1, pages: 4 }]);
    assert_eq!(table.allocated, 4);
    assert_eq!(table.free, 0);
}

#[test]
fn a_new_allocator_is_empty_and_a_new_heap_has_no_arena() {
    let a = PageAllocator::new();
    assert!(!a.is_initialized());
    assert!(a.is_consistent());
    assert_eq!(a.max_pages(), 0);
    assert_eq!(a.alloc_start(), 0);
    assert_eq!(a.descriptor_bytes(), Vec::<u8>::new());
    let h = KernelHeap::new();
    assert!(!h.is_initialized());
    assert_eq!(h.get_head(), None);
    assert_eq!(h.get_allocated_pages(), 0);
}

#[test]
fn the_checked_operations_do_nothing_before_init() {
    let mut a = PageAllocator::new();
    assert_eq!(a.try_alloc_pages(1), None);
    assert_eq!(a.try_zalloc(1), None);
    assert!(!a.try_dealloc(BASE));
    assert!(!a.is_initialized());
    assert_eq!(a.max_pages(), 0);
}

#[test]
fn the_checked_operations_allocate_and_free_as_the_plain_ones() {
    let mut a = pool(8);
    let p0 = a.try_alloc_pages(2).unwrap();
    assert_eq!(p0, BASE);
    a.write_word(BASE + 2 * 4096, 5);
    let p1 = a.try_zalloc(3).unwrap();
    assert_eq!(p1, BASE + 2 * 4096);
    assert_eq!(a.read_word(p1), 0);
    assert_eq!(a.descriptor_bytes(), vec![1, 3, 1, 1, 3, 0, 0, 0]);
    assert_eq!(a.try_alloc_pages(4), None);
    assert_eq!(a.try_zalloc(4), None);
    assert_eq!(a.descriptor_bytes(), vec![1, 3, 1, 1, 3, 0, 0, 0]);
    assert!(!a.try_dealloc(0));
    assert!(!a.try_dealloc(BASE + 5 * 4096));
    assert!(!a.try_dealloc(BASE + 8 * 4096));
    assert_eq!(a.descriptor_bytes(), vec![1, 3, 1, 1, 3, 0, 0, 0]);
    assert!(a.try_dealloc(p0));
    assert_eq!(a.descriptor_bytes(), vec![0, 0, 1, 1, 3, 0, 0, 0]);
    assert!(!a.try_dealloc(p0));
    assert_eq!(a.try_alloc_pages(2), Some(p0));
}

#[test]
fn no_frame_of_an_initialized_pool_has_the_null_address() {
    let mut a = PageAllocator::new();
    a.init(1, 3 * 4096);
    assert_eq!(a.alloc_start(), 4096);
    assert!(a.is_consistent());
    assert_eq!(a.alloc_pages(1), Some(4096));
    assert!(a.can_dealloc(4096));
}
