//! The shape of well-formed page tables, and taking them down.
//!
//! Tables that `map` builds form a tree: every table below the root lives
//! in a frame of its own, handed out for it alone, and no two branch
//! entries point to the same table.

use crate::page_allocator::{cleared, descriptors_wf, is_run, PageAllocator};
use crate::paging_sv39::entry::{entry_leaf, entry_target, entry_valid, lemma_entry_bits, Entry};
use crate::paging_sv39::mapping::{has_table, load_entry, tables_of, Tables};
use crate::paging_sv39::table::Table;
use vstd::prelude::*;

verus! {

/// Whether an entry is valid and points to a table.
pub open spec fn is_branch(e: i64) -> bool {
    entry_valid(e) && !entry_leaf(e)
}

impl Tables {
    /// The sizes fit together, and the frames lie in the 56-bit physical
    /// address space, above address zero.
    pub open spec fn shaped(self) -> bool {
        &&& self.root.len() == 512
        &&& self.words.len() == self.flags.len() * 512
        &&& self.base % 4096 == 0
        &&& self.base > 0
        &&& self.base + self.flags.len() * 4096 <= 0x100_0000_0000_0000
        &&& descriptors_wf(self.flags)
    }

    /// The index of the frame at `table`.
    pub open spec fn page_index(self, table: u64) -> int {
        (table - self.base) / 4096
    }

    /// A table lies at `table` in a frame that was handed out alone.
    pub open spec fn owned(self, table: u64) -> bool {
        self.holds(table) && self.flags[self.page_index(table)] == 3
    }

    /// Entry `i` of the root points to a table.
    pub open spec fn mid_branch(self, i: int) -> bool {
        0 <= i < 512 && is_branch(self.root[i])
    }

    /// The table that entry `i` of the root points to.
    pub open spec fn mid(self, i: int) -> u64 {
        entry_target(self.root[i])
    }

    /// Entry `j` of the table that entry `i` of the root points to.
    pub open spec fn mid_entry(self, i: int, j: int) -> i64 {
        self.words[(self.mid(i) - self.base) / 8 + j] as i64
    }

    /// Entry `j` of the table under entry `i` of the root points to a table.
    pub open spec fn low_branch(self, i: int, j: int) -> bool {
        self.mid_branch(i) && 0 <= j < 512 && is_branch(self.mid_entry(i, j))
    }

    /// The table that entry `j` of the table under entry `i` of the root
    /// points to.
    pub open spec fn low(self, i: int, j: int) -> u64 {
        entry_target(self.mid_entry(i, j))
    }

    /// The tables form a tree of frames that were handed out for them.
    #[verifier::opaque]
    pub open spec fn tree(self) -> bool {
        &&& forall|i: int| #[trigger] self.mid_branch(i) ==> self.owned(self.mid(i))
        &&& forall|i: int, j: int| #[trigger] self.low_branch(i, j) ==> self.owned(self.low(i, j))
        &&& forall|i: int, i2: int|
            #[trigger] self.mid_branch(i) && #[trigger] self.mid_branch(i2) && i != i2
                ==> self.mid(i) != self.mid(i2)
        &&& forall|i: int, j: int, i2: int|
            #[trigger] self.low_branch(i, j) && #[trigger] self.mid_branch(i2) ==> self.low(i, j)
                != self.mid(i2)
        &&& forall|i: int, j: int, i2: int, j2: int|
            #[trigger] self.low_branch(i, j) && #[trigger] self.low_branch(i2, j2) && (i != i2 || j
                != j2) ==> self.low(i, j) != self.low(i2, j2)
    }

    /// Frame `p` holds the table that entry `i` of the root points to.
    pub open spec fn is_mid_page(self, i: int, p: int) -> bool {
        self.mid_branch(i) && self.page_index(self.mid(i)) == p
    }

    /// Frame `p` holds the table that entry `j` of the table under entry `i`
    /// of the root points to.
    pub open spec fn is_low_page(self, i: int, j: int, p: int) -> bool {
        self.low_branch(i, j) && self.page_index(self.low(i, j)) == p
    }

    /// Frame `p` holds a table that a pass over the tables in post-order has
    /// freed when it comes to entry `j` under entry `i` of the root.
    pub open spec fn freed_before(self, i: int, j: int, p: int) -> bool {
        ||| exists|i2: int| i2 < i && #[trigger] self.is_mid_page(i2, p)
        ||| exists|i2: int, j2: int|
            (i2 < i || (i2 == i && j2 < j)) && #[trigger] self.is_low_page(i2, j2, p)
    }

    /// The descriptors with those of the tables that are freed before entry
    /// `j` under entry `i` emptied.
    pub open spec fn flags_freed_before(self, i: int, j: int) -> Seq<u8> {
        Seq::new(
            self.flags.len(),
            |p: int|
                if self.freed_before(i, j, p) {
                    0u8
                } else {
                    self.flags[p]
                },
        )
    }

    /// The descriptors with those of all tables below the root emptied.
    pub open spec fn flags_unmapped(self) -> Seq<u8> {
        self.flags_freed_before(512, 0)
    }
}

/// The state of a consistent, initialized allocator whose frames lie in the
/// physical address space fits together.
pub proof fn lemma_tables_shaped(mem: &PageAllocator, root: &Table)
    requires
        mem.wf(),
        mem.ready(),
        mem.limit() <= 0x100_0000_0000_0000,
    ensures
        tables_of(mem, root).shaped(),
{
    mem.lemma_wf();
}

/// In a tree, what a branch entry of the root points to is a table in a
/// frame of its own, and no other entry points to it.
pub proof fn lemma_tree_mid(s: Tables, i: int)
    requires
        s.tree(),
        s.mid_branch(i),
    ensures
        s.owned(s.mid(i)),
        forall|i2: int| #[trigger] s.mid_branch(i2) && i2 != i ==> s.mid(i2) != s.mid(i),
        forall|i2: int, j2: int| #[trigger] s.low_branch(i2, j2) ==> s.low(i2, j2) != s.mid(i),
{
    reveal(Tables::tree);
}

/// In a tree, what a branch entry of a table under the root points to is a
/// table in a frame of its own, and no other entry points to it.
pub proof fn lemma_tree_low(s: Tables, i: int, j: int)
    requires
        s.tree(),
        s.low_branch(i, j),
    ensures
        s.owned(s.low(i, j)),
        forall|i2: int| #[trigger] s.mid_branch(i2) ==> s.mid(i2) != s.low(i, j),
        forall|i2: int, j2: int|
            #[trigger] s.low_branch(i2, j2) && (i2 != i || j2 != j) ==> s.low(i2, j2) != s.low(i, j),
{
    reveal(Tables::tree);
}

/// Two tables in the same frame are the same table.
pub proof fn lemma_same_page(s: Tables, a: u64, b: u64)
    requires
        s.base % 4096 == 0,
        s.holds(a),
        s.holds(b),
        s.page_index(a) == s.page_index(b),
    ensures
        a == b,
{
}

/// What the pass has freed after entry `j` under entry `i` is what it had
/// freed before, and the table that the entry points to.
pub proof fn lemma_freed_step_low(s: Tables, i: int, j: int, p: int)
    ensures
        s.freed_before(i, j + 1, p) == (s.freed_before(i, j, p) || s.is_low_page(i, j, p)),
{
    {
        if s.freed_before(i, j + 1, p) {
            if exists|i2: int| i2 < i && #[trigger] s.is_mid_page(i2, p) {
            } else {
                let (i2, j2) = choose|i2: int, j2: int|
                    (i2 < i || (i2 == i && j2 < j + 1)) && #[trigger] s.is_low_page(i2, j2, p);
                if !(i2 == i && j2 == j) {
                    assert((i2 < i || (i2 == i && j2 < j)) && s.is_low_page(i2, j2, p));
                }
            }
        }
        if s.is_low_page(i, j, p) {
            assert((i < i || (i == i && j < j + 1)) && s.is_low_page(i, j, p));
        }
        if s.freed_before(i, j, p) {
            if exists|i2: int| i2 < i && #[trigger] s.is_mid_page(i2, p) {
            } else {
                let (i2, j2) = choose|i2: int, j2: int|
                    (i2 < i || (i2 == i && j2 < j)) && #[trigger] s.is_low_page(i2, j2, p);
                assert((i2 < i || (i2 == i && j2 < j + 1)) && s.is_low_page(i2, j2, p));
            }
        }
    }
}

/// What the pass has freed when it comes to the next entry of the root is
/// what it had freed under this one, and the table that this one points to.
pub proof fn lemma_freed_step_mid(s: Tables, i: int, j: int, p: int)
    requires
        j >= 512 || (j == 0 && !s.mid_branch(i)),
    ensures
        s.freed_before(i + 1, 0, p) == (s.freed_before(i, j, p) || s.is_mid_page(i, p)),
{
    {
        if s.freed_before(i + 1, 0, p) {
            if exists|i2: int| i2 < i + 1 && #[trigger] s.is_mid_page(i2, p) {
                let i2 = choose|i2: int| i2 < i + 1 && #[trigger] s.is_mid_page(i2, p);
                if i2 != i {
                    assert(i2 < i && s.is_mid_page(i2, p));
                }
            } else {
                let (i2, j2) = choose|i2: int, j2: int|
                    (i2 < i + 1 || (i2 == i + 1 && j2 < 0)) && #[trigger] s.is_low_page(i2, j2, p);
                assert((i2 < i || (i2 == i && j2 < j)) && s.is_low_page(i2, j2, p));
            }
        }
        if s.is_mid_page(i, p) {
            assert(i < i + 1 && s.is_mid_page(i, p));
        }
        if s.freed_before(i, j, p) {
            if exists|i2: int| i2 < i && #[trigger] s.is_mid_page(i2, p) {
                let i2 = choose|i2: int| i2 < i && #[trigger] s.is_mid_page(i2, p);
                assert(i2 < i + 1 && s.is_mid_page(i2, p));
            } else {
                let (i2, j2) = choose|i2: int, j2: int|
                    (i2 < i || (i2 == i && j2 < j)) && #[trigger] s.is_low_page(i2, j2, p);
                assert((i2 < i + 1 || (i2 == i + 1 && j2 < 0)) && s.is_low_page(i2, j2, p));
            }
        }
    }
}

/// In a tree, the table that an entry points to has not been freed when the
/// pass comes to the entry.
pub proof fn lemma_not_yet_freed(s: Tables, i: int, j: int)
    requires
        s.shaped(),
        s.tree(),
    ensures
        s.low_branch(i, j) ==> !s.freed_before(i, j, s.page_index(s.low(i, j))),
        s.mid_branch(i) ==> !s.freed_before(i, 512, s.page_index(s.mid(i))),
{
    if s.low_branch(i, j) {
        let p = s.page_index(s.low(i, j));
        lemma_tree_low(s, i, j);
        if exists|i2: int| i2 < i && #[trigger] s.is_mid_page(i2, p) {
            let i2 = choose|i2: int| i2 < i && #[trigger] s.is_mid_page(i2, p);
            lemma_tree_mid(s, i2);
            lemma_same_page(s, s.low(i, j), s.mid(i2));
        }
        if exists|i2: int, j2: int|
            (i2 < i || (i2 == i && j2 < j)) && #[trigger] s.is_low_page(i2, j2, p) {
            let (i2, j2) = choose|i2: int, j2: int|
                (i2 < i || (i2 == i && j2 < j)) && #[trigger] s.is_low_page(i2, j2, p);
            lemma_tree_low(s, i2, j2);
            lemma_same_page(s, s.low(i, j), s.low(i2, j2));
        }
    }
    if s.mid_branch(i) {
        let p = s.page_index(s.mid(i));
        lemma_tree_mid(s, i);
        if exists|i2: int| i2 < i && #[trigger] s.is_mid_page(i2, p) {
            let i2 = choose|i2: int| i2 < i && #[trigger] s.is_mid_page(i2, p);
            lemma_tree_mid(s, i2);
            lemma_same_page(s, s.mid(i), s.mid(i2));
        }
        if exists|i2: int, j2: int|
            (i2 < i || (i2 == i && j2 < 512)) && #[trigger] s.is_low_page(i2, j2, p) {
            let (i2, j2) = choose|i2: int, j2: int|
                (i2 < i || (i2 == i && j2 < 512)) && #[trigger] s.is_low_page(i2, j2, p);
            lemma_tree_low(s, i2, j2);
            lemma_same_page(s, s.low(i2, j2), s.mid(i));
        }
    }
}

/// Every descriptor of `after` is what it is in `before`, or empty.
pub open spec fn only_emptied(before: Seq<u8>, after: Seq<u8>) -> bool {
    &&& after.len() == before.len()
    &&& forall|p: int| 0 <= p < before.len() ==> #[trigger] after[p] == before[p] || after[p] == 0
}

/// Frees the frame of one table, if it is an allocation.
fn release_table(mem: &mut PageAllocator, table: u64, Ghost(s): Ghost<Tables>, Ghost(next): Ghost<Seq<u8>>)
    requires
        old(mem).wf(),
        old(mem).ready(),
        s.base == old(mem).base(),
        s.flags.len() == old(mem).pages(),
        s.shaped() && s.tree() ==> {
            &&& s.owned(table)
            &&& old(mem).flags()[s.page_index(table)] == 3
            &&& next == old(mem).flags().update(s.page_index(table), 0u8)
        },
    ensures
        final(mem).wf(),
        final(mem).ready(),
        final(mem).region() == old(mem).region(),
        final(mem).base() == old(mem).base(),
        final(mem).pages() == old(mem).pages(),
        final(mem).words() == old(mem).words(),
        only_emptied(old(mem).flags(), final(mem).flags()),
        s.shaped() && s.tree() ==> final(mem).flags() == next,
{
    proof {
        mem.lemma_wf();
        if s.shaped() && s.tree() {
            let p = s.page_index(table);
            assert(p == mem.page_of(table));
            assert(0 <= p < mem.flags().len());
            assert(is_run(mem.flags(), mem.page_of(table), p));
            assert(table != 0);
            assert(mem.base() <= table < mem.limit());
            assert(mem.owns_run(table));
        }
    }
    if mem.can_dealloc(table) {
        let ghost before = mem.flags();
        mem.dealloc(table);
        proof {
            let end = choose|end: int| #[trigger] is_run(before, old(mem).page_of(table), end);
            assert(is_run(before, old(mem).page_of(table), end));
            assert(mem.flags() == cleared(before, old(mem).page_of(table), end));
            if s.shaped() && s.tree() {
                let p = s.page_index(table);
                assert(is_run(before, mem.page_of(table), p));
                assert(cleared(before, p, p) =~= before.update(p, 0u8));
            }
        }
    }
}

/// Unmaps a table and deallocates the associated memory: every table below
/// the root is visited, the tables of the last level before the table that
/// points to them, and the frame of each is given back to the page
/// allocator. Note that root itself is not deallocated, and keeps its
/// entries. Whatever the tables are, no descriptor changes but to empty.
pub fn unmap(mem: &mut PageAllocator, root: &mut Table)
    requires
        old(mem).wf(),
        old(mem).ready(),
    ensures
        final(mem).wf(),
        final(mem).ready(),
        final(mem).region() == old(mem).region(),
        final(mem).base() == old(mem).base(),
        final(mem).pages() == old(mem).pages(),
        final(mem).words() == old(mem).words(),
        *final(root) == *old(root),
        only_emptied(old(mem).flags(), final(mem).flags()),
        tables_of(old(mem), old(root)).shaped() && tables_of(old(mem), old(root)).tree()
            ==> final(mem).flags() == tables_of(old(mem), old(root)).flags_unmapped(),
{
    let ghost s = tables_of(mem, root);
    let ghost ok = s.shaped() && s.tree();
    proof {
        assert(s.flags_freed_before(0, 0) =~= s.flags);
    }
    // Start at level 2
    let mut lv2: usize = 0;
    while lv2 < root.len()
        invariant
            mem.wf(),
            mem.ready(),
            mem.region() == old(mem).region(),
            mem.base() == old(mem).base(),
            mem.pages() == old(mem).pages(),
            mem.words() == old(mem).words(),
            only_emptied(old(mem).flags(), mem.flags()),
            *root == *old(root),
            s == tables_of(old(mem), old(root)),
            ok == (s.shaped() && s.tree()),
            lv2 <= 512,
            ok ==> mem.flags() == s.flags_freed_before(lv2 as int, 0),
        decreases 512 - lv2,
    {
        let entry_lv2: Entry = root.entries[lv2];
        proof {
            lemma_entry_bits(0, entry_lv2.0, 0);
            assert(s.root[lv2 as int] == entry_lv2.0);
        }
        if entry_lv2.is_valid() && entry_lv2.is_branch() {
            let memaddr_lv1: u64 = #[verifier::truncate] (((entry_lv2.get() & !0x3ffi64) << 2) as u64);
            proof {
                mem.lemma_wf();
                if ok {
                    assert(s.mid_branch(lv2 as int));
                    lemma_tree_mid(s, lv2 as int);
                }
            }
            if has_table(mem, memaddr_lv1) {
                let mut lv1: u64 = 0;
                while lv1 < 512
                    invariant
                        mem.wf(),
                        mem.ready(),
                        mem.region() == old(mem).region(),
                        mem.base() == old(mem).base(),
                        mem.pages() == old(mem).pages(),
                        mem.words() == old(mem).words(),
                        only_emptied(old(mem).flags(), mem.flags()),
                        s == tables_of(old(mem), old(root)),
                        ok == (s.shaped() && s.tree()),
                        lv2 < 512,
                        lv1 <= 512,
                        crate::paging_sv39::mapping::holds_table(mem, memaddr_lv1),
                        memaddr_lv1 == s.mid(lv2 as int),
                        s.mid_branch(lv2 as int),
                        ok ==> mem.flags() == s.flags_freed_before(lv2 as int, lv1 as int),
                    decreases 512 - lv1,
                {
                    let entry_lv1 = load_entry(mem, memaddr_lv1, lv1);
                    proof {
                        mem.lemma_wf();
                        lemma_entry_bits(0, entry_lv1.0, 0);
                        assert(entry_lv1.0 == s.mid_entry(lv2 as int, lv1 as int));
                        assert forall|p: int|
                            s.freed_before(lv2 as int, lv1 + 1, p) == (s.freed_before(
                                lv2 as int,
                                lv1 as int,
                                p,
                            ) || s.is_low_page(lv2 as int, lv1 as int, p)) by {
                            lemma_freed_step_low(s, lv2 as int, lv1 as int, p);
                        }
                    }
                    if entry_lv1.is_valid() && entry_lv1.is_branch() {
                        let memaddr_lv0: u64 = #[verifier::truncate] (((entry_lv1.get() & !0x3ffi64)
                            << 2) as u64);
                        let ghost next = s.flags_freed_before(lv2 as int, lv1 + 1);
                        proof {
                            if ok {
                                assert(s.low_branch(lv2 as int, lv1 as int));
                                lemma_tree_low(s, lv2 as int, lv1 as int);
                                lemma_not_yet_freed(s, lv2 as int, lv1 as int);
                                assert(next =~= mem.flags().update(s.page_index(memaddr_lv0), 0u8));
                            }
                        }
                        // The next level is level 0, which cannot have
                        // branches, therefore, we free here.
                        release_table(mem, memaddr_lv0, Ghost(s), Ghost(next));
                    } else {
                        proof {
                            if ok {
                                assert(s.flags_freed_before(lv2 as int, lv1 + 1)
                                    =~= s.flags_freed_before(lv2 as int, lv1 as int));
                            }
                        }
                    }
                    lv1 += 1;
                }
            }
            let ghost next = s.flags_freed_before(lv2 + 1, 0);
            proof {
                if ok {
                    assert(crate::paging_sv39::mapping::holds_table(mem, memaddr_lv1));
                    assert(mem.flags() == s.flags_freed_before(lv2 as int, 512));
                    lemma_not_yet_freed(s, lv2 as int, 0);
                    let page = s.page_index(memaddr_lv1);
                    assert forall|p: int| 0 <= p < next.len() implies next[p]
                        == mem.flags().update(page, 0u8)[p] by {
                        lemma_freed_step_mid(s, lv2 as int, 512, p);
                    }
                    assert(next =~= mem.flags().update(page, 0u8));
                }
            }
            release_table(mem, memaddr_lv1, Ghost(s), Ghost(next));
        } else {
            proof {
                if ok {
                    assert forall|p: int| 0 <= p < s.flags.len() implies s.flags_freed_before(
                        lv2 + 1,
                        0,
                    )[p] == s.flags_freed_before(lv2 as int, 0)[p] by {
                        lemma_freed_step_mid(s, lv2 as int, 0, p);
                    }
                    assert(s.flags_freed_before(lv2 + 1, 0) =~= s.flags_freed_before(lv2 as int, 0));
                }
            }
        }
        lv2 += 1;
    }
}

} // verus!
