use riskyos::alloc_list::{AllocList, AllocListFlags};
use riskyos::kernel_allocator::{KernelHeap, KmemEntry};
use riskyos::page_allocator::PageAllocator;

const BASE: u64 = 0x8000_0000;
const ARENA: u64 = 512 * 4096;

fn heap() -> (PageAllocator, KernelHeap) {
    let mut mem = PageAllocator::new();
    mem.init(BASE, 520 * 4096);
    let mut heap = KernelHeap::new();
    assert!(!heap.is_initialized());
    assert_eq!(heap.get_head(), None);
    assert!(heap.init(&mut mem));
    assert!(heap.is_initialized());
    (mem, heap)
}

fn table(heap: &KernelHeap, mem: &PageAllocator) -> Vec<(u64, u64, bool)> {
    heap.kmem_table(mem).iter().map(|e| (e.address - BASE, e.length, e.taken)).collect()
}

#[test]
fn header_keeps_size_and_taken_bit_apart() {
    let mut h = AllocList::from_word(0);
    assert!(h.is_free());
    assert_eq!(h.size(), 0);
    h.set_size(4096);
    assert_eq!(h.size(), 4096);
    assert!(h.is_free());
    h.set_taken();
    assert!(h.is_taken());
    assert_eq!(h.size(), 4096);
    assert_eq!(h.word(), (1 << 63) | 4096);
    h.set_size(24);
    assert!(h.is_taken());
    assert_eq!(h.size(), 24);
    h.set_free();
    assert!(h.is_free());
    assert_eq!(h.word(), 24);
    assert_eq!(AllocListFlags::Taken.bits(), 1 << 63);
}

#[test]
fn a_size_with_the_top_bit_loses_it() {
    let mut h = AllocList::from_word(0);
    h.set_size((1 << 63) | 40);
    assert_eq!(h.size(), 40);
    assert!(h.is_free());
}

#[test]
fn init_installs_one_free_block_over_the_arena() {
    let (mem, heap) = heap();
    assert_eq!(heap.get_head(), Some(BASE));
    assert_eq!(heap.get_allocated_pages(), 512);
    assert_eq!(table(&heap, &mem), vec![(0, ARENA, false)]);
    assert_eq!(mem.free_page_count(), 8);
    assert_eq!(mem.read_word(BASE), ARENA);
}

#[test]
fn init_fails_without_enough_pages_and_changes_nothing() {
    let mut mem = PageAllocator::new();
    mem.init(BASE, 511 * 4096);
    let before = mem.descriptor_bytes();
    let mut heap = KernelHeap::new();
    assert!(!heap.init(&mut mem));
    assert!(!heap.is_initialized());
    assert_eq!(mem.descriptor_bytes(), before);
}

#[test]
fn kmalloc_rounds_up_and_adds_the_header() {
    let (mut mem, mut heap) = heap();
    let p = heap.kmalloc(&mut mem, 1).unwrap();
    assert_eq!(p, BASE + 8);
    assert_eq!(table(&heap, &mem), vec![(0, 16, true), (16, ARENA - 16, false)]);
    let q = heap.kmalloc(&mut mem, 9).unwrap();
    assert_eq!(q, BASE + 16 + 8);
    let r = heap.kmalloc(&mut mem, 16).unwrap();
    assert_eq!(r, BASE + 16 + 24 + 8);
    assert_eq!(
        table(&heap, &mem),
        vec![(0, 16, true), (16, 24, true), (40, 24, true), (64, ARENA - 64, false)]
    );
}

#[test]
fn kmalloc_kfree_kmalloc_returns_the_same_address() {
    let (mut mem, mut heap) = heap();
    let keep = heap.kmalloc(&mut mem, 100).unwrap();
    let before = table(&heap, &mem);
    for size in [1u64, 8, 24, 100, 4000, 70000] {
        let p = heap.kmalloc(&mut mem, size).unwrap();
        assert_eq!(p, keep + 104 + 8);
        assert!(heap.is_block(&mem, p));
        heap.kfree(&mut mem, p);
        assert_eq!(table(&heap, &mem), before);
        let q = heap.kmalloc(&mut mem, size).unwrap();
        assert_eq!(q, p);
        heap.kfree(&mut mem, q);
    }
}

#[test]
fn freeing_two_neighbours_leaves_one_block_of_their_sum() {
    let (mut mem, mut heap) = heap();
    let a = heap.kmalloc(&mut mem, 32).unwrap();
    let b = heap.kmalloc(&mut mem, 48).unwrap();
    let c = heap.kmalloc(&mut mem, 64).unwrap();
    let d = heap.kmalloc(&mut mem, 8).unwrap();
    assert_eq!(
        table(&heap, &mem),
        vec![(0, 40, true), (40, 56, true), (96, 72, true), (168, 16, true), (184, ARENA - 184, false)]
    );
    heap.kfree(&mut mem, b);
    heap.kfree(&mut mem, c);
    assert_eq!(
        table(&heap, &mem),
        vec![(0, 40, true), (40, 128, false), (168, 16, true), (184, ARENA - 184, false)]
    );
    let e = heap.kmalloc(&mut mem, 120).unwrap();
    assert_eq!(e, b);
    assert_eq!(
        table(&heap, &mem),
        vec![(0, 40, true), (40, 128, true), (168, 16, true), (184, ARENA - 184, false)]
    );
    let _ = (a, d);
}

#[test]
fn freeing_in_the_other_order_gives_the_same_block() {
    let (mut mem, mut heap) = heap();
    let _a = heap.kmalloc(&mut mem, 32).unwrap();
    let b = heap.kmalloc(&mut mem, 48).unwrap();
    let c = heap.kmalloc(&mut mem, 64).unwrap();
    let _d = heap.kmalloc(&mut mem, 8).unwrap();
    heap.kfree(&mut mem, c);
    heap.kfree(&mut mem, b);
    assert_eq!(
        table(&heap, &mem),
        vec![(0, 40, true), (40, 128, false), (168, 16, true), (184, ARENA - 184, false)]
    );
}

#[test]
fn a_run_of_three_free_blocks_collapses_in_one_pass() {
    let (mut mem, mut heap) = heap();
    let a = heap.kmalloc(&mut mem, 8).unwrap();
    let b = heap.kmalloc(&mut mem, 8).unwrap();
    let c = heap.kmalloc(&mut mem, 8).unwrap();
    let _d = heap.kmalloc(&mut mem, 8).unwrap();
    heap.kfree(&mut mem, a);
    heap.kfree(&mut mem, c);
    assert_eq!(
        table(&heap, &mem),
        vec![(0, 16, false), (16, 16, true), (32, 16, false), (48, 16, true), (64, ARENA - 64, false)]
    );
    heap.kfree(&mut mem, b);
    assert_eq!(table(&heap, &mem), vec![(0, 48, false), (48, 16, true), (64, ARENA - 64, false)]);
}

#[test]
fn freeing_everything_restores_the_single_block() {
    let (mut mem, mut heap) = heap();
    let a = heap.kmalloc(&mut mem, 100).unwrap();
    let b = heap.kmalloc(&mut mem, 200).unwrap();
    let c = heap.kmalloc(&mut mem, 300).unwrap();
    heap.kfree(&mut mem, b);
    heap.kfree(&mut mem, a);
    heap.kfree(&mut mem, c);
    assert_eq!(table(&heap, &mem), vec![(0, ARENA, false)]);
}

#[test]
fn a_remainder_of_one_header_is_not_split_off() {
    let (mut mem, mut heap) = heap();
    let a = heap.kmalloc(&mut mem, 24).unwrap();
    let _b = heap.kmalloc(&mut mem, 8).unwrap();
    heap.kfree(&mut mem, a);
    assert_eq!(table(&heap, &mem)[0], (0, 32, false));
    let c = heap.kmalloc(&mut mem, 16).unwrap();
    assert_eq!(c, a);
    assert_eq!(table(&heap, &mem)[0], (0, 32, true));
    assert_eq!(table(&heap, &mem).len(), 3);
    heap.kfree(&mut mem, c);
    let d = heap.kmalloc(&mut mem, 8).unwrap();
    assert_eq!(d, a);
    assert_eq!(&table(&heap, &mem)[0..2], &[(0, 16, true), (16, 16, false)]);
}

#[test]
fn heap_exhaustion_returns_none_and_changes_nothing() {
    let (mut mem, mut heap) = heap();
    assert_eq!(heap.kmalloc(&mut mem, ARENA), None);
    assert_eq!(heap.kmalloc(&mut mem, ARENA - 7), None);
    assert_eq!(heap.kmalloc(&mut mem, u64::MAX), None);
    assert_eq!(table(&heap, &mem), vec![(0, ARENA, false)]);
    let p = heap.kmalloc(&mut mem, ARENA - 8).unwrap();
    assert_eq!(p, BASE + 8);
    assert_eq!(table(&heap, &mem), vec![(0, ARENA, true)]);
    assert_eq!(heap.kmalloc(&mut mem, 1), None);
    assert_eq!(heap.kzmalloc(&mut mem, 1), None);
}

#[test]
fn kzmalloc_zeroes_the_payload_and_nothing_else() {
    let (mut mem, mut heap) = heap();
    let a = heap.kmalloc(&mut mem, 32).unwrap();
    let guard = heap.kmalloc(&mut mem, 8).unwrap();
    for i in 0..4 {
        mem.write_word(a + 8 * i, 0xffff_0000 + i);
    }
    mem.write_word(guard, 0x1234);
    heap.kfree(&mut mem, a);
    let z = heap.kzmalloc(&mut mem, 20).unwrap();
    assert_eq!(z, a);
    for i in 0..3 {
        assert_eq!(mem.read_word(z + 8 * i), 0);
    }
    assert_eq!(mem.read_word(z + 24), 0xffff_0003);
    assert_eq!(mem.read_word(guard), 0x1234);
    assert_eq!(table(&heap, &mem)[0], (0, 40, true));
}

#[test]
fn is_block_tells_payload_addresses_from_others() {
    let (mut mem, mut heap) = heap();
    let a = heap.kmalloc(&mut mem, 32).unwrap();
    let b = heap.kmalloc(&mut mem, 8).unwrap();
    assert!(heap.is_block(&mem, a));
    assert!(heap.is_block(&mem, b));
    assert!(heap.is_block(&mem, b + 16));
    assert!(!heap.is_block(&mem, a + 8));
    assert!(!heap.is_block(&mem, BASE));
    assert!(!heap.is_block(&mem, 0));
    assert!(!heap.is_block(&mem, BASE + ARENA + 8));
}

#[test]
fn freeing_a_free_block_changes_nothing() {
    let (mut mem, mut heap) = heap();
    let a = heap.kmalloc(&mut mem, 32).unwrap();
    let _b = heap.kmalloc(&mut mem, 8).unwrap();
    heap.kfree(&mut mem, a);
    let before = table(&heap, &mem);
    heap.kfree(&mut mem, a);
    assert_eq!(table(&heap, &mem), before);
}

#[test]
fn the_table_lists_every_block() {
    let (mut mem, mut heap) = heap();
    heap.kmalloc(&mut mem, 8).unwrap();
    let t = heap.kmem_table(&mem);
    assert_eq!(t[0], KmemEntry { address: BASE, length: 16, taken: true });
    assert_eq!(t[1], KmemEntry { address: BASE + 16, length: ARENA - 16, taken: false });
    assert_eq!(t.iter().map(|e| e.length).sum::<u64>(), ARENA);
}

#[test]
fn a_freed_pair_joins_the_free_blocks_beside_it() {
    let (mut mem, mut heap) = heap();
    let before = heap.kmalloc(&mut mem, 8).unwrap();
    let a = heap.kmalloc(&mut mem, 32).unwrap();
    let b = heap.kmalloc(&mut mem, 48).unwrap();
    let after = heap.kmalloc(&mut mem, 64).unwrap();
    let _end = heap.kmalloc(&mut mem, 8).unwrap();
    heap.kfree(&mut mem, before);
    heap.kfree(&mut mem, after);
    assert_eq!(
        table(&heap, &mem),
        vec![(0, 16, false), (16, 40, true), (56, 56, true), (112, 72, false), (184, 16, true), (200, ARENA - 200, false)]
    );
    heap.kfree(&mut mem, a);
    assert_eq!(
        table(&heap, &mem),
        vec![(0, 56, false), (56, 56, true), (112, 72, false), (184, 16, true), (200, ARENA - 200, false)]
    );
    assert!(!heap.is_block(&mem, a));
    assert!(heap.is_block(&mem, b));
    heap.kfree(&mut mem, b);
    assert_eq!(table(&heap, &mem), vec![(0, 184, false), (184, 16, true), (200, ARENA - 200, false)]);
    assert!(!heap.is_block(&mem, b));
}

#[test]
fn the_merged_block_serves_what_neither_part_could_hold() {
    let (mut mem, mut heap) = heap();
    let _first = heap.kmalloc(&mut mem, 8).unwrap();
    let a = heap.kmalloc(&mut mem, 32).unwrap();
    let b = heap.kmalloc(&mut mem, 48).unwrap();
    let _guard = heap.kmalloc(&mut mem, 8).unwrap();
    heap.kfree(&mut mem, b);
    heap.kfree(&mut mem, a);
    assert_eq!(
        table(&heap, &mem),
        vec![(0, 16, true), (16, 96, false), (112, 16, true), (128, ARENA - 128, false)]
    );
    assert_eq!(heap.kmalloc(&mut mem, 80), Some(a));
    assert_eq!(
        table(&heap, &mem),
        vec![(0, 16, true), (16, 96, true), (112, 16, true), (128, ARENA - 128, false)]
    );
}
