use riskyos::consts::SectionLayout;
use riskyos::kernel_allocator::KernelHeap;
use riskyos::page_allocator::PageAllocator;
use riskyos::paging_sv39::entry::{Entry, EntryBits};
use riskyos::paging_sv39::mapping;
use riskyos::paging_sv39::mapping::{
    has_table, id_map_range, identity_map, load_entry, split_vaddr, virt_to_phys, MapError,
};
use riskyos::paging_sv39::table::Table;
use riskyos::paging_sv39::tree::unmap;

const BASE: u64 = 0x8000_0000;

fn pool(pages: u64) -> PageAllocator {
    let mut mem = PageAllocator::new();
    mem.init(BASE, pages * 4096);
    mem
}

#[test]
fn entry_bits_follow_the_architecture() {
    assert_eq!(EntryBits::Empty.bits(), 0);
    assert_eq!(EntryBits::Valid.bits(), 1 << 0);
    assert_eq!(EntryBits::Read.bits(), 1 << 1);
    assert_eq!(EntryBits::Write.bits(), 1 << 2);
    assert_eq!(EntryBits::Execute.bits(), 1 << 3);
    assert_eq!(EntryBits::User.bits(), 1 << 4);
    assert_eq!(EntryBits::Global.bits(), 1 << 5);
    assert_eq!(EntryBits::Accessed.bits(), 1 << 6);
    assert_eq!(EntryBits::Dirty.bits(), 1 << 7);
    assert_eq!(EntryBits::ReadWrite.bits(), 6);
    assert_eq!(EntryBits::ReadExecute.bits(), 10);
    assert_eq!(EntryBits::ReadWriteExecute.bits(), 14);
    assert_eq!(EntryBits::UserReadWrite.bits(), 22);
    assert_eq!(EntryBits::UserReadExecute.bits(), 26);
    assert_eq!(EntryBits::UserReadWriteExecute.bits(), 30);
}

#[test]
fn entries_are_invalid_branch_or_leaf() {
    let mut e = Entry::new(0);
    assert!(e.is_invalid());
    assert!(!e.is_valid());
    assert!(e.is_branch());
    e.set(1);
    assert!(e.is_valid());
    assert!(e.is_branch());
    assert!(!e.is_leaf());
    e.set(1 | 2);
    assert!(e.is_leaf());
    e.set(1 | 4);
    assert!(e.is_leaf());
    e.set(1 | 8);
    assert!(e.is_leaf());
    e.set(1 | 16);
    assert!(e.is_branch());
    assert_eq!(e.get(), 17);
}

#[test]
fn a_new_table_has_512_zero_entries() {
    let t = Table::new();
    assert_eq!(t.len(), 512);
    assert!(t.entries.iter().all(|e| e.get() == 0));
}

#[test]
fn virtual_addresses_split_into_nine_bit_indices() {
    assert_eq!(split_vaddr(0x1000), [1, 0, 0]);
    assert_eq!(split_vaddr(0x20_0000), [0, 1, 0]);
    assert_eq!(split_vaddr(0x4000_0000), [0, 0, 1]);
    assert_eq!(split_vaddr(0x7f_ffff_ffff), [511, 511, 511]);
    assert_eq!(split_vaddr(0x80_0000_0000), [0, 0, 0]);
    assert_eq!(split_vaddr(0xfff), [0, 0, 0]);
}

#[test]
fn map_then_translate_read_write_page() {
    let mut mem = pool(8);
    let mut root = Table::new();
    assert_eq!(mapping::map(&mut mem, &mut root, 0x1000, 0x2000, EntryBits::ReadWrite.bits(), 0), Ok(()));
    assert_eq!(virt_to_phys(&mem, &root, 0x1000), Some(0x2000));
    assert_eq!(virt_to_phys(&mem, &root, 0x1050), Some(0x2050));
    assert_eq!(virt_to_phys(&mem, &root, 0x1fff), Some(0x2fff));
    assert_eq!(virt_to_phys(&mem, &root, 0x2000), None);
    assert_eq!(virt_to_phys(&mem, &root, 0x0fff), None);
}

#[test]
fn map_builds_two_tables_and_writes_the_exact_entries() {
    let mut mem = pool(8);
    let mut root = Table::new();
    mapping::map(&mut mem, &mut root, 0x1000, 0x2000, EntryBits::ReadWrite.bits(), 0).unwrap();
    assert_eq!(mem.descriptor_bytes(), vec![3, 3, 0, 0, 0, 0, 0, 0]);
    assert_eq!(root.entries[0].get(), ((BASE >> 2) | 1) as i64);
    assert_eq!(load_entry(&mem, BASE, 0).get(), (((BASE + 4096) >> 2) | 1) as i64);
    assert_eq!(load_entry(&mem, BASE + 4096, 1).get(), ((0x2000 >> 12) << 10) | 6 | 1);
    assert_eq!(load_entry(&mem, BASE + 4096, 0).get(), 0);
    mapping::map(&mut mem, &mut root, 0x3000, 0x9000, EntryBits::ReadExecute.bits(), 0).unwrap();
    assert_eq!(mem.descriptor_bytes(), vec![3, 3, 0, 0, 0, 0, 0, 0]);
    assert_eq!(load_entry(&mem, BASE + 4096, 3).get(), ((0x9000 >> 12) << 10) | 10 | 1);
}

#[test]
fn the_round_trip_holds_across_the_page_for_any_access_flags() {
    for flags in [
        EntryBits::Read,
        EntryBits::Write,
        EntryBits::Execute,
        EntryBits::ReadWrite,
        EntryBits::ReadExecute,
        EntryBits::ReadWriteExecute,
        EntryBits::UserReadWrite,
        EntryBits::UserReadExecute,
        EntryBits::UserReadWriteExecute,
    ] {
        let mut mem = pool(8);
        let mut root = Table::new();
        let vaddr: u64 = 0x12_3456_7000;
        let paddr: u64 = 0xab_cdef_1000;
        mapping::map(&mut mem, &mut root, vaddr, paddr, flags.bits(), 0).unwrap();
        for k in [0u64, 1, 8, 0x50, 0x7ff, 0xfff] {
            assert_eq!(virt_to_phys(&mem, &root, vaddr + k), Some(paddr + k));
        }
    }
}

#[test]
fn an_address_never_mapped_translates_to_none() {
    let mut mem = pool(16);
    let mut root = Table::new();
    assert_eq!(virt_to_phys(&mem, &root, 0), None);
    assert_eq!(virt_to_phys(&mem, &root, 0xdead_b000), None);
    mapping::map(&mut mem, &mut root, 0x4020_3000, 0x8765_4000, EntryBits::ReadWrite.bits(), 0).unwrap();
    for v in [0u64, 0x4020_2000, 0x4020_4000, 0x4000_3000, 0x4040_3000, 0x20_3000, 0x8020_3000] {
        assert_eq!(virt_to_phys(&mem, &root, v), None);
    }
    assert_eq!(virt_to_phys(&mem, &root, 0x4020_3abc), Some(0x8765_4abc));
}

#[test]
fn leaves_at_higher_levels_map_larger_pages() {
    let mut mem = pool(8);
    let mut root = Table::new();
    mapping::map(&mut mem, &mut root, 0x4000_0000, 0x8000_0000, EntryBits::ReadWrite.bits(), 2).unwrap();
    assert_eq!(mem.descriptor_bytes(), vec![0; 8]);
    assert_eq!(virt_to_phys(&mem, &root, 0x4000_0000), Some(0x8000_0000));
    assert_eq!(virt_to_phys(&mem, &root, 0x4123_4567), Some(0x8123_4567));
    assert_eq!(virt_to_phys(&mem, &root, 0x7fff_ffff), Some(0xbfff_ffff));
    assert_eq!(virt_to_phys(&mem, &root, 0x8000_0000), None);
    mapping::map(&mut mem, &mut root, 0x20_0000, 0x60_0000, EntryBits::ReadExecute.bits(), 1).unwrap();
    assert_eq!(mem.descriptor_bytes(), vec![3, 0, 0, 0, 0, 0, 0, 0]);
    assert_eq!(virt_to_phys(&mem, &root, 0x20_0000), Some(0x60_0000));
    assert_eq!(virt_to_phys(&mem, &root, 0x3f_ffff), Some(0x7f_ffff));
    assert_eq!(virt_to_phys(&mem, &root, 0x40_0000), None);
}

#[test]
fn map_reports_exhaustion() {
    let mut mem = pool(1);
    let mut root = Table::new();
    assert_eq!(
        mapping::map(&mut mem, &mut root, 0x1000, 0x2000, EntryBits::ReadWrite.bits(), 0),
        Err(MapError::OutOfMemory)
    );
    assert_eq!(mem.descriptor_bytes(), vec![3]);
    assert_eq!(virt_to_phys(&mem, &root, 0x1000), None);
    let mut empty = pool(0);
    let mut root = Table::new();
    assert_eq!(
        mapping::map(&mut empty, &mut root, 0x1000, 0x2000, EntryBits::ReadWrite.bits(), 1),
        Err(MapError::OutOfMemory)
    );
    assert_eq!(mapping::map(&mut empty, &mut root, 0x1000, 0x2000, EntryBits::ReadWrite.bits(), 2), Ok(()));
}

#[test]
fn map_reports_an_entry_that_points_outside_the_frames() {
    let mut mem = pool(4);
    let mut root = Table::new();
    root.entries[0] = Entry::new(((0x1000_0000u64 >> 2) | 1) as i64);
    assert_eq!(
        mapping::map(&mut mem, &mut root, 0x1000, 0x2000, EntryBits::ReadWrite.bits(), 0),
        Err(MapError::BadTable)
    );
    assert_eq!(mem.descriptor_bytes(), vec![0; 4]);
    assert_eq!(virt_to_phys(&mem, &root, 0x1000), None);
    assert!(has_table(&mem, BASE));
    assert!(has_table(&mem, BASE + 3 * 4096));
    assert!(!has_table(&mem, BASE + 4 * 4096));
    assert!(!has_table(&mem, BASE + 8));
    assert!(!has_table(&mem, 0x1000_0000));
}

#[test]
fn a_branch_in_the_last_level_maps_nothing() {
    let mut mem = pool(8);
    let mut root = Table::new();
    mapping::map(&mut mem, &mut root, 0x1000, 0x2000, EntryBits::ReadWrite.bits(), 0).unwrap();
    mem.write_word(BASE + 4096 + 8, ((BASE >> 2) | 1) as u64);
    assert_eq!(virt_to_phys(&mem, &root, 0x1000), None);
}

#[test]
fn id_map_range_maps_every_page_it_touches() {
    let mut mem = pool(8);
    let mut root = Table::new();
    assert_eq!(
        id_map_range(&mut mem, &mut root, 0x8020_0123, 0x8020_2001, EntryBits::ReadExecute.bits()),
        Ok(())
    );
    for v in [0x8020_0000u64, 0x8020_0123, 0x8020_1000, 0x8020_2001, 0x8020_2fff] {
        assert_eq!(virt_to_phys(&mem, &root, v), Some(v));
    }
    assert_eq!(virt_to_phys(&mem, &root, 0x801f_ffff), None);
    assert_eq!(virt_to_phys(&mem, &root, 0x8020_3000), None);
}

#[test]
fn id_map_range_of_an_aligned_empty_range_maps_nothing() {
    let mut mem = pool(8);
    let mut root = Table::new();
    assert_eq!(
        id_map_range(&mut mem, &mut root, 0x8020_0000, 0x8020_0000, EntryBits::ReadWrite.bits()),
        Ok(())
    );
    assert_eq!(mem.descriptor_bytes(), vec![0; 8]);
    assert_eq!(virt_to_phys(&mem, &root, 0x8020_0000), None);
}

#[test]
fn id_map_range_stops_at_the_first_page_it_cannot_map() {
    let mut mem = pool(2);
    let mut root = Table::new();
    assert_eq!(
        id_map_range(&mut mem, &mut root, 0x1f_f000, 0x20_1000, EntryBits::ReadWrite.bits()),
        Err(MapError::OutOfMemory)
    );
    assert_eq!(virt_to_phys(&mem, &root, 0x1f_f000), Some(0x1f_f000));
    assert_eq!(virt_to_phys(&mem, &root, 0x20_0000), None);
}

#[test]
fn identity_map_covers_heap_and_sections() {
    let mut mem = PageAllocator::new();
    mem.init(BASE, 600 * 4096);
    let mut heap = KernelHeap::new();
    assert!(heap.init(&mut mem));
    let layout = SectionLayout {
        text_start: 0x8020_0000,
        text_end: 0x8020_1800,
        rodata_start: 0x8020_2000,
        rodata_end: 0x8020_2010,
        data_start: 0x8020_3000,
        data_end: 0x8020_3fff,
        bss_start: 0x8020_4000,
        bss_end: 0x8020_4001,
        memory_start: 0x8000_0000,
        memory_end: 0x8800_0000,
        stack_start: 0x8021_0000,
        stack_end: 0x8021_2000,
        heap_start: BASE,
        heap_size: 600 * 4096,
    };
    assert!(layout.is_ordered());
    assert_eq!(layout.get_stack_size(), 0x2000);
    let mut root = Table::new();
    assert_eq!(identity_map(&mut mem, &mut root, &heap, &layout), Ok(()));
    for v in [
        BASE,
        BASE + 511 * 4096 + 7,
        BASE + 599 * 4096,
        0x8020_0000,
        0x8020_1fff,
        0x8020_2000,
        0x8020_3800,
        0x8020_4fff,
        0x8021_0000,
        0x8021_1fff,
    ] {
        assert_eq!(virt_to_phys(&mem, &root, v), Some(v));
    }
    assert_eq!(virt_to_phys(&mem, &root, BASE + 600 * 4096), None);
    assert_eq!(virt_to_phys(&mem, &root, BASE + 601 * 4096), None);
    assert_eq!(virt_to_phys(&mem, &root, 0x7fff_f000), None);
}

#[test]
fn unmap_gives_back_every_table_below_the_root() {
    let mut mem = PageAllocator::new();
    mem.init(BASE, 16 * 4096);
    let other = mem.alloc_pages(2).unwrap();
    let mut root = Table::new();
    for v in [0x1000u64, 0x2000, 0x20_0000, 0x4000_0000, 0x4020_0000] {
        mapping::map(&mut mem, &mut root, v, v + 0x1000_0000, EntryBits::ReadWrite.bits(), 0).unwrap();
    }
    mapping::map(&mut mem, &mut root, 0x8000_0000, 0x8000_0000, EntryBits::ReadWrite.bits(), 2).unwrap();
    mapping::map(&mut mem, &mut root, 0x4040_0000, 0x40_0000, EntryBits::ReadWrite.bits(), 1).unwrap();
    assert_eq!(mem.free_page_count(), 16 - 2 - 6);
    let words_before: Vec<u64> = (0..16 * 512).map(|i| mem.read_word(BASE + 8 * i)).collect();
    let root_before: Vec<i64> = root.entries.iter().map(|e| e.get()).collect();
    unmap(&mut mem, &mut root);
    assert_eq!(mem.descriptor_bytes(), vec![1, 3, 0, 0, 0, 0, 0, 0, 0, 0, 0, 0, 0, 0, 0, 0]);
    let words_after: Vec<u64> = (0..16 * 512).map(|i| mem.read_word(BASE + 8 * i)).collect();
    assert_eq!(words_after, words_before);
    let root_after: Vec<i64> = root.entries.iter().map(|e| e.get()).collect();
    assert_eq!(root_after, root_before);
    assert!(mem.can_dealloc(other));
}

#[test]
fn unmap_of_an_empty_root_frees_nothing() {
    let mut mem = pool(4);
    mem.alloc_pages(1).unwrap();
    let mut root = Table::new();
    unmap(&mut mem, &mut root);
    assert_eq!(mem.descriptor_bytes(), vec![3, 0, 0, 0]);
}
