//! Building and walking the page tables.
//!
//! The root table is a value of its own. The tables below it live in page
//! frames: a branch entry holds the address of the frame of the table that
//! it points to.

use crate::allocator::{align_up, align_up_spec, lemma_granules_are_pow2};
use crate::consts::{SectionLayout, PAGE_ALIGN};
use crate::kernel_allocator::KernelHeap;
use crate::page_allocator::{first_fit, marked, zeroed, PageAllocator};
use crate::paging_sv39::entry::{
    branch_entry, entry_leaf, entry_target, entry_valid, leaf_address, leaf_entry,
    lemma_entry_bits, vpn, Entry, EntryBits,
};
use crate::paging_sv39::table::Table;
use vstd::prelude::*;

verus! {

/// Whether a whole table lies at `table` inside the managed frames.
pub open spec fn holds_table(mem: &PageAllocator, table: u64) -> bool {
    &&& mem.base() <= table
    &&& table % 4096 == 0
    &&& table + 4096 <= mem.limit()
}

/// The entry with index `index` of the table in the frame at `table`.
pub open spec fn stored_entry(mem: &PageAllocator, table: u64, index: int) -> i64 {
    mem.words()[mem.word_index(table) + index] as i64
}

/// What the entry `e`, found at `level`, says of `vaddr`: nothing if it is
/// invalid, the physical address if it is a leaf, and otherwise the table to
/// go on with.
pub enum Step {
    Unmapped,
    Mapped(u64),
    Descend(u64),
}

/// The physical address that the tables under `root` give to `vaddr`, if
/// any: the walk goes from the root's entry down through the tables that
/// branch entries point to, and ends at the first invalid entry or leaf. A
/// branch that points outside the managed frames, or stands in a table of
/// the last level, maps nothing.
pub open spec fn translate(mem: &PageAllocator, root: &Table, vaddr: u64) -> Option<u64> {
    tables_of(mem, root).translate(vaddr)
}

/// Whether a whole table lies at `table` inside the managed frames.
pub fn has_table(mem: &PageAllocator, table: u64) -> (r: bool)
    requires
        mem.wf(),
    ensures
        r == holds_table(mem, table),
{
    proof {
        mem.lemma_wf();
    }
    let limit: u64 = mem.alloc_start() + (mem.max_pages() as u64) * 4096;
    table >= mem.alloc_start() && table % 4096 == 0 && table <= limit && limit - table >= 4096
}

/// Reads the entry with index `index` of the table in the frame at `table`.
pub fn load_entry(mem: &PageAllocator, table: u64, index: u64) -> (r: Entry)
    requires
        mem.wf(),
        holds_table(mem, table),
        index < 512,
    ensures
        r.0 == stored_entry(mem, table, index as int),
{
    proof {
        mem.lemma_wf();
    }
    let word: u64 = mem.read_word(table + index * 8);
    Entry(#[verifier::truncate] (word as i64))
}

/// The three table indices that a virtual address selects, lowest level first.
pub fn split_vaddr(vaddr: u64) -> (r: [u64; 3])
    ensures
        r[0] == vpn(vaddr, 0),
        r[1] == vpn(vaddr, 1),
        r[2] == vpn(vaddr, 2),
        r[0] < 512,
        r[1] < 512,
        r[2] < 512,
{
    proof {
        lemma_entry_bits(vaddr, 0, 0);
    }
    [(vaddr >> 12) & 0x1ff, (vaddr >> 21) & 0x1ff, (vaddr >> 30) & 0x1ff]
}

/// What the entry `v`, found at `level`, says of `vaddr`.
fn walk_step(mem: &PageAllocator, root: &Table, v: Entry, level: u8, vaddr: u64) -> (r: Step)
    requires
        mem.wf(),
        level <= 2,
    ensures
        r == tables_of(mem, root).step(v.0, level as int, vaddr),
{
    proof {
        mem.lemma_wf();
    }
    if v.is_invalid() {
        Step::Unmapped
    } else if v.is_leaf() {
        let off_mask: u64 = if level == 0 {
            0xfff
        } else if level == 1 {
            0x1f_ffff
        } else {
            0x3fff_ffff
        };
        let vaddr_pgoff: u64 = vaddr & off_mask;
        let addr: u64 = (#[verifier::truncate] ((v.get() << 2) as u64)) & !off_mask;
        Step::Mapped(addr | vaddr_pgoff)
    } else {
        let table: u64 = #[verifier::truncate] (((v.get() & !0x3ffi64) << 2) as u64);
        if level == 0 || !has_table(mem, table) {
            Step::Unmapped
        } else {
            Step::Descend(table)
        }
    }
}

/// Translate a virtual address to a physical address.
/// Walk the page table to convert a virtual address to a
/// physical address.
/// If a page fault would occur, this returns None.
/// Otherwise, it returns Some with the physical address.
pub fn virt_to_phys(mem: &PageAllocator, root: &Table, vaddr: u64) -> (r: Option<u64>)
    requires
        mem.wf(),
    ensures
        r == translate(mem, root, vaddr),
{
    let vpn = split_vaddr(vaddr);
    let v2: Entry = root.entries[vpn[2] as usize];
    match walk_step(mem, root, v2, 2, vaddr) {
        Step::Unmapped => None,
        Step::Mapped(p) => Some(p),
        Step::Descend(t1) => {
            let v1 = load_entry(mem, t1, vpn[1]);
            match walk_step(mem, root, v1, 1, vaddr) {
                Step::Unmapped => None,
                Step::Mapped(p) => Some(p),
                Step::Descend(t0) => {
                    let v0 = load_entry(mem, t0, vpn[0]);
                    match walk_step(mem, root, v0, 0, vaddr) {
                        Step::Mapped(p) => Some(p),
                        _ => None,
                    }
                },
            }
        },
    }
}

/// Why a mapping could not be made.
#[derive(Debug, Clone, Copy, PartialEq, Eq, Structural)]
pub enum MapError {
    /// A table was missing and no page frame was free to hold it.
    OutOfMemory,
    /// An entry on the way points outside the managed frames.
    BadTable,
}

/// The place of an entry: in the root table, or in the table in the frame
/// at an address.
#[derive(Debug, Clone, Copy, PartialEq, Eq, Structural)]
pub enum Slot {
    Root(u64),
    Frame(u64, u64),
}

/// What mapping reads and changes: the page descriptors, the words of the
/// frames, and the entries of the root table.
pub struct Tables {
    pub base: u64,
    pub flags: Seq<u8>,
    pub words: Seq<u64>,
    pub root: Seq<i64>,
}

/// The state after a frame was handed out for a table, and the frame's
/// address.
pub struct Fresh {
    pub tables: Tables,
    pub page: u64,
}

/// The entries of a root table.
pub open spec fn root_entries(root: &Table) -> Seq<i64> {
    Seq::new(512, |i: int| root.entries[i].0)
}

/// The state that a page allocator and a root table stand for.
pub open spec fn tables_of(mem: &PageAllocator, root: &Table) -> Tables {
    Tables { base: mem.base(), flags: mem.flags(), words: mem.words(), root: root_entries(root) }
}

impl Tables {
    /// Whether a whole table lies at `table` inside the managed frames.
    pub open spec fn holds(self, table: u64) -> bool {
        &&& self.base <= table
        &&& table % 4096 == 0
        &&& table + 4096 <= self.base + self.flags.len() * 4096
    }

    /// The position among the words of the entry in a frame.
    pub open spec fn word_of(self, table: u64, index: u64) -> int {
        (table - self.base) / 8 + index
    }

    /// What the entry `e`, found at `level`, says of `vaddr`.
    pub open spec fn step(self, e: i64, level: int, vaddr: u64) -> Step {
        if !entry_valid(e) {
            Step::Unmapped
        } else if entry_leaf(e) {
            Step::Mapped(leaf_address(e, level, vaddr))
        } else if level == 0 || !self.holds(entry_target(e)) {
            Step::Unmapped
        } else {
            Step::Descend(entry_target(e))
        }
    }

    /// The physical address that the tables give to `vaddr`, if any.
    pub open spec fn translate(self, vaddr: u64) -> Option<u64> {
        match self.step(self.root[vpn(vaddr, 2) as int], 2, vaddr) {
            Step::Unmapped => None,
            Step::Mapped(p) => Some(p),
            Step::Descend(t1) => match self.step(
                self.entry(Slot::Frame(t1, vpn(vaddr, 1))),
                1,
                vaddr,
            ) {
                Step::Unmapped => None,
                Step::Mapped(p) => Some(p),
                Step::Descend(t0) => match self.step(
                    self.entry(Slot::Frame(t0, vpn(vaddr, 0))),
                    0,
                    vaddr,
                ) {
                    Step::Mapped(p) => Some(p),
                    _ => None,
                },
            },
        }
    }

    /// The entry in a slot.
    pub open spec fn entry(self, slot: Slot) -> i64 {
        match slot {
            Slot::Root(index) => self.root[index as int],
            Slot::Frame(table, index) => self.words[self.word_of(table, index)] as i64,
        }
    }

    /// The state with `e` written to a slot.
    pub open spec fn set(self, slot: Slot, e: i64) -> Tables {
        match slot {
            Slot::Root(index) => Tables { root: self.root.update(index as int, e), ..self },
            Slot::Frame(table, index) => Tables {
                words: self.words.update(self.word_of(table, index), e as u64),
                ..self
            },
        }
    }

    /// The state after one frame was handed out by first fit and zeroed, and
    /// the frame's address; `None` if no frame is free.
    pub open spec fn fresh(self) -> Option<Fresh> {
        if exists|i: int| first_fit(self.flags, i, 1) {
            let i = choose|i: int| first_fit(self.flags, i, 1);
            Some(
                Fresh {
                    tables: Tables {
                        flags: marked(self.flags, i, 1),
                        words: zeroed(self.words, i * 512, (i + 1) * 512),
                        ..self
                    },
                    page: (self.base + 4096 * i) as u64,
                },
            )
        } else {
            None
        }
    }

    /// One level down from the entry in `slot`: where the entry is invalid a
    /// fresh zeroed table is linked to it first. Gives the state after that
    /// and the slot with index `index` in the table that the entry points
    /// to, or the reason why there is none.
    pub open spec fn descend(self, slot: Slot, index: u64) -> (Tables, Result<Slot, MapError>) {
        if !entry_valid(self.entry(slot)) && self.fresh() is None {
            (self, Err(MapError::OutOfMemory))
        } else {
            let linked = if entry_valid(self.entry(slot)) {
                self
            } else {
                self.fresh().unwrap().tables.set(slot, branch_entry(self.fresh().unwrap().page))
            };
            let table = entry_target(linked.entry(slot));
            if linked.holds(table) {
                (linked, Ok(Slot::Frame(table, index)))
            } else {
                (linked, Err(MapError::BadTable))
            }
        }
    }

    /// The state after `vaddr` was mapped to `paddr` with `flags` by a leaf
    /// at `level`, and whether that could be done: the walk goes down from
    /// the root to the table of `level`, and the leaf is written to the
    /// slot that `vaddr` selects there.
    #[verifier::opaque]
    pub open spec fn map(self, vaddr: u64, paddr: u64, flags: i64, level: int) -> (
        Tables,
        Result<(), MapError>,
    ) {
        let leaf = leaf_entry(paddr, flags);
        let top = Slot::Root(vpn(vaddr, 2));
        if level == 2 {
            (self.set(top, leaf), Ok(()))
        } else {
            let (s1, r1) = self.descend(top, vpn(vaddr, 1));
            match r1 {
                Err(e) => (s1, Err(e)),
                Ok(middle) => if level == 1 {
                    (s1.set(middle, leaf), Ok(()))
                } else {
                    let (s0, r0) = s1.descend(middle, vpn(vaddr, 0));
                    match r0 {
                        Err(e) => (s0, Err(e)),
                        Ok(bottom) => (s0.set(bottom, leaf), Ok(())),
                    }
                },
            }
        }
    }
}

/// Whether a slot is one that can be read and written.
pub open spec fn slot_ok(mem: &PageAllocator, slot: Slot) -> bool {
    match slot {
        Slot::Root(index) => index < 512,
        Slot::Frame(table, index) => holds_table(mem, table) && index < 512,
    }
}

/// Reads the entry in a slot.
fn read_slot(mem: &PageAllocator, root: &Table, slot: Slot) -> (r: Entry)
    requires
        mem.wf(),
        slot_ok(mem, slot),
    ensures
        r.0 == tables_of(mem, root).entry(slot),
{
    match slot {
        Slot::Root(index) => root.entries[index as usize],
        Slot::Frame(table, index) => load_entry(mem, table, index),
    }
}

/// Writes an entry to a slot.
fn write_slot(mem: &mut PageAllocator, root: &mut Table, slot: Slot, e: Entry)
    requires
        old(mem).wf(),
        slot_ok(old(mem), slot),
    ensures
        final(mem).wf(),
        final(mem).ready() == old(mem).ready(),
        final(mem).region() == old(mem).region(),
        tables_of(final(mem), final(root)) == tables_of(old(mem), old(root)).set(slot, e.0),
{
    match slot {
        Slot::Root(index) => {
            root.entries[index as usize] = e;
            proof {
                assert(root_entries(root) =~= root_entries(old(root)).update(index as int, e.0));
            }
        },
        Slot::Frame(table, index) => {
            proof {
                mem.lemma_wf();
            }
            mem.write_word(table + index * 8, #[verifier::truncate] (e.get() as u64));
        },
    }
}

/// There is one first fit at most.
pub proof fn lemma_first_fit_unique(flags: Seq<u8>, i: int, j: int, pages: int)
    requires
        first_fit(flags, i, pages),
        first_fit(flags, j, pages),
    ensures
        i == j,
{
}

/// One level down from the entry in `slot`: links a fresh zeroed table to
/// the entry if it is invalid, and gives the slot with index `index` in the
/// table that the entry points to.
fn descend(mem: &mut PageAllocator, root: &mut Table, slot: Slot, index: u64) -> (r: Result<
    Slot,
    MapError,
>)
    requires
        old(mem).wf(),
        old(mem).ready(),
        slot_ok(old(mem), slot),
        index < 512,
    ensures
        final(mem).wf(),
        final(mem).ready(),
        final(mem).region() == old(mem).region(),
        final(mem).base() == old(mem).base(),
        final(mem).pages() == old(mem).pages(),
        (tables_of(final(mem), final(root)), r) == tables_of(old(mem), old(root)).descend(
            slot,
            index,
        ),
        r is Ok ==> slot_ok(final(mem), r->Ok_0),
{
    let ghost before = tables_of(mem, root);
    proof {
        mem.lemma_wf();
    }
    let mut v = read_slot(mem, root, slot);
    if v.is_invalid() {
        match mem.zalloc(1) {
            None => {
                proof {
                    assert(before.fresh() is None) by {
                        if exists|i: int| first_fit(before.flags, i, 1) {
                            let i = choose|i: int| first_fit(before.flags, i, 1);
                            assert(crate::page_allocator::run_free(before.flags, i, 1));
                        }
                    }
                }
                return Err(MapError::OutOfMemory);
            },
            Some(page) => {
                proof {
                    let i = old(mem).page_of(page);
                    let c = choose|i: int| first_fit(before.flags, i, 1);
                    lemma_first_fit_unique(before.flags, i, c, 1);
                    assert(tables_of(mem, root) == before.fresh().unwrap().tables);
                    assert(page == before.fresh().unwrap().page);
                    mem.lemma_wf();
                }
                // The page is aligned by 4,096, so it is stored in the entry
                // shifted right by 2 places.
                v.set(((#[verifier::truncate] (page as i64)) >> 2) | EntryBits::Valid.bits());
                write_slot(mem, root, slot, v);
                proof {
                    mem.lemma_wf();
                    lemma_entry_round_trip(v.0);
                    assert(tables_of(mem, root).entry(slot) == v.0);
                }
            },
        }
    }
    proof {
        mem.lemma_wf();
    }
    let table: u64 = #[verifier::truncate] (((v.get() & !0x3ffi64) << 2) as u64);
    if has_table(mem, table) {
        Ok(Slot::Frame(table, index))
    } else {
        Err(MapError::BadTable)
    }
}

/// An entry is read back from a word as it was stored in it.
pub proof fn lemma_entry_round_trip(e: i64)
    ensures
        (e as u64) as i64 == e,
{
    assert((e as u64) as i64 == e) by (bit_vector);
}

/// Map a virtual address to a physical address.
///
/// The walk goes from the root down to the table of `level`; a missing
/// table on the way is made from a fresh zeroed frame. The entry that
/// `vaddr` selects at `level` becomes a leaf made of the physical page
/// number fields of `paddr`, the `flags` and the valid bit.
///
/// ## Flags
/// The provided flags are what will be set in the entry.
/// The flags must have at least one of the R, W, or X bits set.
/// The Valid bit is set automatically.
pub fn map(
    mem: &mut PageAllocator,
    root: &mut Table,
    vaddr: u64,
    paddr: u64,
    flags: i64,
    level: usize,
) -> (r: Result<(), MapError>)
    requires
        old(mem).wf(),
        old(mem).ready(),
        flags & 14 != 0,
        level < 3,
    ensures
        final(mem).wf(),
        final(mem).ready(),
        final(mem).region() == old(mem).region(),
        final(mem).base() == old(mem).base(),
        final(mem).pages() == old(mem).pages(),
        (tables_of(final(mem), final(root)), r) == tables_of(old(mem), old(root)).map(
            vaddr,
            paddr,
            flags,
            level as int,
        ),
{
    proof {
        reveal(Tables::map);
    }
    let vpn = split_vaddr(vaddr);
    let ppn: [u64; 3] = [(paddr >> 12) & 0x1ff, (paddr >> 21) & 0x1ff, (paddr >> 30) & 0x3ff_ffff];
    let entry: i64 = (#[verifier::truncate] ((ppn[2] << 28) as i64)) | (#[verifier::truncate] ((
    ppn[1] << 19) as i64)) | (#[verifier::truncate] ((ppn[0] << 10) as i64)) | flags
        | EntryBits::Valid.bits();
    let mut slot = Slot::Root(vpn[2]);
    if level < 2 {
        match descend(mem, root, slot, vpn[1]) {
            Err(e) => {
                return Err(e);
            },
            Ok(middle) => {
                slot = middle;
            },
        }
        if level < 1 {
            match descend(mem, root, slot, vpn[0]) {
                Err(e) => {
                    return Err(e);
                },
                Ok(bottom) => {
                    slot = bottom;
                },
            }
        }
    }
    write_slot(mem, root, slot, Entry::new(entry));
    Ok(())
}

/// The state after the `pages` pages from `memaddr` on were mapped to
/// themselves, one after the other, up to the first that could not be.
pub open spec fn id_map(s: Tables, memaddr: u64, pages: nat, bits: i64) -> (
    Tables,
    Result<(), MapError>,
)
    decreases pages,
{
    if pages == 0 {
        (s, Ok(()))
    } else {
        let (next, r) = s.map(memaddr, memaddr, bits, 0);
        match r {
            Err(e) => (next, Err(e)),
            Ok(_) => id_map(next, (memaddr + 4096) as u64, (pages - 1) as nat, bits),
        }
    }
}

/// The start of the page that holds `addr`.
pub open spec fn page_floor(addr: u64) -> u64 {
    (addr - addr % 4096) as u64
}

/// Pages in the range from `start` to `end`, both rounded outwards to page
/// boundaries.
pub open spec fn pages_spanned(start: u64, end: u64) -> nat {
    ((align_up_spec(end as int, 4096) - page_floor(start)) / 4096) as nat
}

/// Identity map range.
/// Takes a contiguous range of memory and maps every page of it to itself:
/// `start` is rounded down and `end` up to a page boundary, and each page
/// between is mapped at level 0 with `bits`. Stops at the first page that
/// cannot be mapped.
pub fn id_map_range(mem: &mut PageAllocator, root: &mut Table, start: u64, end: u64, bits: i64) -> (r:
    Result<(), MapError>)
    requires
        old(mem).wf(),
        old(mem).ready(),
        start <= end,
        end <= u64::MAX - 4095,
        bits & 14 != 0,
    ensures
        final(mem).wf(),
        final(mem).ready(),
        final(mem).region() == old(mem).region(),
        final(mem).base() == old(mem).base(),
        final(mem).pages() == old(mem).pages(),
        (tables_of(final(mem), final(root)), r) == id_map(
            tables_of(old(mem), old(root)),
            page_floor(start),
            pages_spanned(start, end),
            bits,
        ),
{
    proof {
        lemma_granules_are_pow2();
        assert(start & !((4096 - 1) as u64) == start - start % 4096) by (bit_vector);
    }
    let mut memaddr: u64 = start & !(PAGE_ALIGN - 1);
    let num_kb_pages: u64 = (align_up(end, PAGE_ALIGN) - memaddr) / PAGE_ALIGN;
    let ghost last = align_up_spec(end as int, 4096);
    let mut done: u64 = 0;
    while done < num_kb_pages
        invariant
            mem.wf(),
            mem.ready(),
            mem.region() == old(mem).region(),
            mem.base() == old(mem).base(),
            mem.pages() == old(mem).pages(),
            bits & 14 != 0,
            done <= num_kb_pages,
            memaddr + (num_kb_pages - done) * 4096 == last,
            last <= u64::MAX,
            id_map(
                tables_of(old(mem), old(root)),
                page_floor(start),
                pages_spanned(start, end),
                bits,
            ) == id_map(tables_of(mem, root), memaddr, (num_kb_pages - done) as nat, bits),
        decreases num_kb_pages - done,
    {
        let ghost before = tables_of(mem, root);
        let ghost left = (num_kb_pages - done) as nat;
        let mapped = map(mem, root, memaddr, memaddr, bits, 0);
        proof {
            assert(id_map(before, memaddr, left, bits) == match before.map(
                memaddr,
                memaddr,
                bits,
                0,
            ).1 {
                Err(e) => (before.map(memaddr, memaddr, bits, 0).0, Err(e)),
                Ok(_) => id_map(
                    before.map(memaddr, memaddr, bits, 0).0,
                    (memaddr + 4096) as u64,
                    (left - 1) as nat,
                    bits,
                ),
            });
        }
        match mapped {
            Err(e) => {
                return Err(e);
            },
            Ok(_) => {},
        }
        memaddr = memaddr + PAGE_ALIGN;
        done += 1;
    }
    Ok(())
}

/// A range of addresses and the flags to map it with.
#[derive(Debug, Clone, Copy, PartialEq, Eq, Structural)]
pub struct Region {
    pub start: u64,
    pub end: u64,
    pub bits: i64,
}

/// The regions that the kernel maps to themselves before it turns virtual
/// memory on, in the order in which it maps them: the kernel heap and the
/// page allocator's region, readable and writable; code and read-only data,
/// readable and executable; data, zero-initialized data and the stack,
/// readable and writable.
pub open spec fn kernel_regions_spec(head: u64, heap_pages: int, layout: SectionLayout) -> Seq<
    Region,
> {
    seq![
        Region { start: head, end: (head + heap_pages * 4096) as u64, bits: 6 },
        Region {
            start: layout.heap_start,
            end: (layout.heap_start + (layout.heap_size / 4096) * 4096) as u64,
            bits: 6,
        },
        Region { start: layout.text_start, end: layout.text_end, bits: 10 },
        Region { start: layout.rodata_start, end: layout.rodata_end, bits: 10 },
        Region { start: layout.data_start, end: layout.data_end, bits: 6 },
        Region { start: layout.bss_start, end: layout.bss_end, bits: 6 },
        Region { start: layout.stack_start, end: layout.stack_end, bits: 6 },
    ]
}

/// The state after the regions were identity mapped one after the other, up
/// to the first page that could not be.
pub open spec fn id_map_regions(s: Tables, regions: Seq<Region>) -> (Tables, Result<(), MapError>)
    decreases regions.len(),
{
    if regions.len() == 0 {
        (s, Ok(()))
    } else {
        let (next, r) = id_map(
            s,
            page_floor(regions[0].start),
            pages_spanned(regions[0].start, regions[0].end),
            regions[0].bits,
        );
        match r {
            Err(e) => (next, Err(e)),
            Ok(_) => id_map_regions(next, regions.drop_first()),
        }
    }
}

/// Whether a region can be identity mapped.
pub open spec fn region_ok(region: Region) -> bool {
    &&& region.start <= region.end <= u64::MAX - 4095
    &&& region.bits & 14 != 0
}

/// Identity map important memory regions: the kernel heap, the page
/// allocator's region, and the sections of the kernel image.
pub fn identity_map(
    mem: &mut PageAllocator,
    root: &mut Table,
    heap: &KernelHeap,
    layout: &SectionLayout,
) -> (r: Result<(), MapError>)
    requires
        old(mem).wf(),
        old(mem).ready(),
        heap.ready(),
        heap.head() + heap.allocated_pages() * 4096 <= u64::MAX - 4095,
        layout.ordered(),
    ensures
        final(mem).wf(),
        final(mem).ready(),
        final(mem).region() == old(mem).region(),
        final(mem).base() == old(mem).base(),
        final(mem).pages() == old(mem).pages(),
        (tables_of(final(mem), final(root)), r) == id_map_regions(
            tables_of(old(mem), old(root)),
            kernel_regions_spec(heap.head(), heap.allocated_pages(), *layout),
        ),
{
    let kheap_head: u64 = match heap.get_head() {
        Some(head) => head,
        None => 0,
    };
    let kheap_pages: u64 = heap.get_allocated_pages() as u64;
    let heap_pages: u64 = layout.heap_size / PAGE_ALIGN;
    let read_write: i64 = EntryBits::ReadWrite.bits();
    let read_execute: i64 = EntryBits::ReadExecute.bits();
    proof {
        assert(6i64 & 14 != 0 && 10i64 & 14 != 0) by (bit_vector);
    }
    let regions: [Region; 7] = [
        Region { start: kheap_head, end: kheap_head + kheap_pages * 4096, bits: read_write },
        Region {
            start: layout.heap_start,
            end: layout.heap_start + heap_pages * 4096,
            bits: read_write,
        },
        Region { start: layout.text_start, end: layout.text_end, bits: read_execute },
        Region { start: layout.rodata_start, end: layout.rodata_end, bits: read_execute },
        Region { start: layout.data_start, end: layout.data_end, bits: read_write },
        Region { start: layout.bss_start, end: layout.bss_end, bits: read_write },
        Region { start: layout.stack_start, end: layout.stack_end, bits: read_write },
    ];
    proof {
        assert(regions@ =~= kernel_regions_spec(heap.head(), heap.allocated_pages(), *layout));
        assert(regions@.subrange(0, 7) =~= regions@);
    }
    let mut i: usize = 0;
    while i < 7
        invariant
            mem.wf(),
            mem.ready(),
            mem.region() == old(mem).region(),
            mem.base() == old(mem).base(),
            mem.pages() == old(mem).pages(),
            i <= 7,
            regions@.len() == 7,
            regions@ == kernel_regions_spec(heap.head(), heap.allocated_pages(), *layout),
            forall|k: int| 0 <= k < 7 ==> region_ok(#[trigger] regions@[k]),
            id_map_regions(tables_of(old(mem), old(root)), regions@) == id_map_regions(
                tables_of(mem, root),
                regions@.subrange(i as int, 7),
            ),
        decreases 7 - i,
    {
        let region = regions[i];
        let ghost before = tables_of(mem, root);
        let ghost rest = regions@.subrange(i as int, 7);
        proof {
            assert(region_ok(regions@[i as int]));
            assert(rest[0] == region);
            assert(rest.drop_first() =~= regions@.subrange(i + 1, 7));
        }
        let mapped = id_map_range(mem, root, region.start, region.end, region.bits);
        proof {
            let step = id_map(
                before,
                page_floor(rest[0].start),
                pages_spanned(rest[0].start, rest[0].end),
                rest[0].bits,
            );
            assert(id_map_regions(before, rest) == match step.1 {
                Err(e) => (step.0, Err(e)),
                Ok(_) => id_map_regions(step.0, rest.drop_first()),
            });
        }
        match mapped {
            Err(e) => {
                return Err(e);
            },
            Ok(_) => {},
        }
        i += 1;
    }
    Ok(())
}

/// Initialize the virtual memory: identity maps the important memory
/// regions under `root`, and returns the value to write to the address
/// translation register for a root table that lives at `root_address`.
pub fn init(
    mem: &mut PageAllocator,
    root: &mut Table,
    root_address: u64,
    heap: &KernelHeap,
    layout: &SectionLayout,
) -> (r: Result<u64, MapError>)
    requires
        old(mem).wf(),
        old(mem).ready(),
        heap.ready(),
        heap.head() + heap.allocated_pages() * 4096 <= u64::MAX - 4095,
        layout.ordered(),
    ensures
        final(mem).wf(),
        final(mem).ready(),
        final(mem).region() == old(mem).region(),
        final(mem).base() == old(mem).base(),
        final(mem).pages() == old(mem).pages(),
        tables_of(final(mem), final(root)) == id_map_regions(
            tables_of(old(mem), old(root)),
            kernel_regions_spec(heap.head(), heap.allocated_pages(), *layout),
        ).0,
        r == match id_map_regions(
            tables_of(old(mem), old(root)),
            kernel_regions_spec(heap.head(), heap.allocated_pages(), *layout),
        ).1 {
            Ok(_) => Ok::<u64, MapError>(crate::satp::satp_sv39(root_address)),
            Err(e) => Err::<u64, MapError>(e),
        },
{
    match identity_map(mem, root, heap, layout) {
        Ok(_) => Ok(crate::satp::enable_virtual_memory_sv39(root_address)),
        Err(e) => Err(e),
    }
}

} // verus!
