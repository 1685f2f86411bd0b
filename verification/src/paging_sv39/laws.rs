//! Laws of mapping and translation.

use crate::page_allocator::{first_fit, marked, run_free, zeroed};
use crate::paging_sv39::entry::{
    branch_entry, entry_leaf, entry_target, entry_valid, leaf_entry, lemma_entry_bits,
    lemma_leaf_bits, vpn,
};
use crate::paging_sv39::mapping::{lemma_entry_round_trip, Slot, Step, Tables};
use crate::paging_sv39::tree::{is_branch, lemma_tree_low, lemma_tree_mid};
use vstd::prelude::*;

verus! {

/// Whether an entry is a leaf that is in use.
pub open spec fn is_leaf(e: i64) -> bool {
    entry_valid(e) && entry_leaf(e)
}

impl Tables {
    /// Whether a slot lies in the root or in a table inside the frames.
    pub open spec fn has_slot(self, slot: Slot) -> bool {
        match slot {
            Slot::Root(index) => index < 512,
            Slot::Frame(table, index) => self.holds(table) && index < 512,
        }
    }

    /// No leaf above the last level maps the page of `vaddr`: the page is
    /// not part of a larger page.
    pub open spec fn no_leaf_above(self, vaddr: u64) -> bool {
        &&& !is_leaf(self.root[vpn(vaddr, 2) as int])
        &&& is_branch(self.root[vpn(vaddr, 2) as int]) ==> !is_leaf(
            self.mid_entry(vpn(vaddr, 2) as int, vpn(vaddr, 1) as int),
        )
    }
}

/// What a handed out frame is: it was free, lies inside the frames, is now
/// handed out alone, and holds zeros; nothing else has changed.
pub proof fn lemma_fresh(s: Tables)
    requires
        s.shaped(),
        s.fresh() is Some,
    ensures
        ({
            let f = s.fresh().unwrap();
            let i = s.page_index(f.page);
            &&& f.tables.shaped()
            &&& f.tables.base == s.base
            &&& f.tables.root == s.root
            &&& f.tables.flags.len() == s.flags.len()
            &&& f.tables.holds(f.page)
            &&& f.page == s.base + 4096 * i
            &&& 0 <= i < s.flags.len()
            &&& s.flags[i] == 0
            &&& f.tables.flags == s.flags.update(i, 3u8)
            &&& f.tables.words == zeroed(s.words, i * 512, (i + 1) * 512)
            &&& f.page < 0x100_0000_0000_0000
        }),
{
    let i = choose|i: int| first_fit(s.flags, i, 1);
    assert(run_free(s.flags, i, 1));
    assert(s.flags[i] == 0);
    assert(marked(s.flags, i, 1) =~= s.flags.update(i, 3u8));
}

/// What one step down does where it succeeds from an entry that is not a
/// leaf: afterwards the entry is a branch to the table of the slot that is
/// returned, and that table lies inside the frames.
pub proof fn lemma_descend(s: Tables, slot: Slot, index: u64)
    requires
        s.shaped(),
        s.has_slot(slot),
        index < 512,
        s.descend(slot, index).1 is Ok,
        !is_leaf(s.entry(slot)),
    ensures
        ({
            let after = s.descend(slot, index).0;
            let table = entry_target(after.entry(slot));
            &&& s.descend(slot, index).1 == Ok::<Slot, crate::paging_sv39::mapping::MapError>(
                Slot::Frame(table, index),
            )
            &&& after.shaped()
            &&& after.base == s.base
            &&& after.flags.len() == s.flags.len()
            &&& after.holds(table)
            &&& is_branch(after.entry(slot))
            &&& entry_valid(s.entry(slot)) ==> after == s
            &&& !entry_valid(s.entry(slot)) ==> {
                let f = s.fresh().unwrap();
                &&& s.fresh() is Some
                &&& table == f.page
                &&& after == f.tables.set(slot, branch_entry(f.page))
            }
        }),
{
    if !entry_valid(s.entry(slot)) {
        lemma_fresh(s);
        let f = s.fresh().unwrap();
        lemma_entry_bits(0, 0, f.page);
        lemma_entry_round_trip(branch_entry(f.page));
        let after = f.tables.set(slot, branch_entry(f.page));
        match slot {
            Slot::Root(ib) => {
                assert(after.entry(slot) == branch_entry(f.page));
            },
            Slot::Frame(tb, ib) => {
                assert(0 <= f.tables.word_of(tb, ib) < f.tables.words.len());
                assert(after.entry(slot) == branch_entry(f.page));
            },
        }
    }
}

/// The two tables that a mapping at the last level goes through, and what
/// the mapping has changed.
pub struct MapEffect {
    /// The state after the mapping.
    pub end: Tables,
    /// The table that the root's entry points to.
    pub mid: u64,
    /// The table of the last level.
    pub low: u64,
    /// Whether the first of the two was made by the mapping.
    pub mid_is_new: bool,
    /// Whether the second of the two was made by the mapping.
    pub low_is_new: bool,
}

/// The effect of mapping `vaddr` at the last level.
#[verifier::opaque]
pub open spec fn map_effect(s: Tables, vaddr: u64, paddr: u64, flags: i64) -> MapEffect {
    let end = s.map(vaddr, paddr, flags, 0).0;
    let mid = entry_target(end.root[vpn(vaddr, 2) as int]);
    let low = entry_target(end.entry(Slot::Frame(mid, vpn(vaddr, 1))));
    MapEffect {
        end,
        mid,
        low,
        mid_is_new: !entry_valid(s.root[vpn(vaddr, 2) as int]),
        low_is_new: !entry_valid(s.root[vpn(vaddr, 2) as int]) || !entry_valid(
            s.mid_entry(vpn(vaddr, 2) as int, vpn(vaddr, 1) as int),
        ),
    }
}

impl MapEffect {
    /// Whether the word with index `w` lies in a table that the mapping made.
    pub open spec fn in_new_table(self, w: int) -> bool {
        ||| self.mid_is_new && self.end.word_of(self.mid, 0) <= w < self.end.word_of(self.mid, 0)
            + 512
        ||| self.low_is_new && self.end.word_of(self.low, 0) <= w < self.end.word_of(self.low, 0)
            + 512
    }

    /// Whether frame `p` holds a table that the mapping made.
    pub open spec fn is_new_page(self, p: int) -> bool {
        ||| self.mid_is_new && p == self.end.page_index(self.mid)
        ||| self.low_is_new && p == self.end.page_index(self.low)
    }
}

/// The state after the first step down of a mapping at the last level.
pub open spec fn after_top(s: Tables, vaddr: u64) -> Tables {
    s.descend(Slot::Root(vpn(vaddr, 2)), vpn(vaddr, 1)).0
}

/// The state after the second step down of a mapping at the last level.
pub open spec fn after_middle(s: Tables, vaddr: u64) -> Tables {
    after_top(s, vaddr).descend(
        Slot::Frame(
            entry_target(after_top(s, vaddr).root[vpn(vaddr, 2) as int]),
            vpn(vaddr, 1),
        ),
        vpn(vaddr, 0),
    ).0
}

/// What one step down changes: nothing where the entry is valid; otherwise
/// one free frame is handed out and zeroed, and the entry becomes a branch
/// to it.
pub proof fn lemma_descend_effect(s: Tables, slot: Slot, index: u64)
    requires
        s.shaped(),
        s.has_slot(slot),
        index < 512,
        s.descend(slot, index).1 is Ok,
        !entry_valid(s.entry(slot)),
    ensures
        ({
            let after = s.descend(slot, index).0;
            let page = entry_target(after.entry(slot));
            let i = s.page_index(page);
            &&& s.holds(page)
            &&& page == s.base + 4096 * i
            &&& s.flags[i] == 0
            &&& after.flags == s.flags.update(i, 3u8)
            &&& after.entry(slot) == branch_entry(page)
            &&& match slot {
                Slot::Root(ib) => after.root == s.root.update(ib as int, branch_entry(page))
                    && after.words == zeroed(s.words, i * 512, (i + 1) * 512),
                Slot::Frame(tb, ib) => after.root == s.root && after.words == zeroed(
                    s.words,
                    i * 512,
                    (i + 1) * 512,
                ).update(s.word_of(tb, ib), branch_entry(page) as u64),
            }
        }),
{
    lemma_fresh(s);
    lemma_descend(s, slot, index);
    let f = s.fresh().unwrap();
    lemma_entry_bits(0, 0, f.page);
    lemma_entry_round_trip(branch_entry(f.page));
    match slot {
        Slot::Root(ib) => {},
        Slot::Frame(tb, ib) => {
            assert(0 <= f.tables.word_of(tb, ib) < f.tables.words.len());
        },
    }
}

/// The first step down of a mapping at the last level, where the mapping
/// succeeds and the page is not part of a larger page.
pub proof fn lemma_map_top(s: Tables, vaddr: u64, paddr: u64, flags: i64)
    requires
        s.shaped(),
        s.tree(),
        s.no_leaf_above(vaddr),
        s.map(vaddr, paddr, flags, 0).1 is Ok,
    ensures
        ({
            let i2 = vpn(vaddr, 2);
            let i1 = vpn(vaddr, 1);
            let i0 = vpn(vaddr, 0);
            let s1 = after_top(s, vaddr);
            let t1 = entry_target(s1.root[i2 as int]);
            let middle = Slot::Frame(t1, i1);
            &&& i2 < 512 && i1 < 512 && i0 < 512
            &&& s1.shaped()
            &&& s1.base == s.base
            &&& s1.flags.len() == s.flags.len()
            &&& s1.holds(t1)
            &&& is_branch(s1.root[i2 as int])
            &&& s1.flags[s1.page_index(t1)] == 3
            &&& !is_leaf(s1.entry(middle))
            &&& s1.descend(middle, i0).1 is Ok
            &&& s.map(vaddr, paddr, flags, 0).0 == after_middle(s, vaddr).set(
                Slot::Frame(entry_target(after_middle(s, vaddr).entry(middle)), i0),
                leaf_entry(paddr, flags),
            )
            &&& entry_valid(s.root[i2 as int]) ==> s1 == s && s.mid_branch(i2 as int) && t1
                == s.mid(i2 as int) && s1.entry(middle) == s.mid_entry(i2 as int, i1 as int)
            &&& !entry_valid(s.root[i2 as int]) ==> {
                let i = s.page_index(t1);
                &&& !entry_valid(s1.entry(middle))
                &&& t1 == s.base + 4096 * i
                &&& s.flags[i] == 0
                &&& s1.flags == s.flags.update(i, 3u8)
                &&& s1.root == s.root.update(i2 as int, branch_entry(t1))
                &&& s1.words == zeroed(s.words, i * 512, (i + 1) * 512)
            }
        }),
{
    reveal(Tables::map);
    let i2 = vpn(vaddr, 2);
    let i1 = vpn(vaddr, 1);
    let i0 = vpn(vaddr, 0);
    lemma_entry_bits(vaddr, 0, 0);
    let top = Slot::Root(i2);
    let s1 = s.descend(top, i1).0;
    lemma_descend(s, top, i1);
    let t1 = entry_target(s1.entry(top));
    let middle = Slot::Frame(t1, i1);
    assert(s.descend(top, i1).1 == Ok::<Slot, crate::paging_sv39::mapping::MapError>(middle));
    if entry_valid(s.entry(top)) {
        assert(s.mid_branch(i2 as int));
        lemma_tree_mid(s, i2 as int);
        assert(s.mid_entry(i2 as int, i1 as int) == s1.entry(middle));
    } else {
        lemma_descend_effect(s, top, i1);
        let i = s.page_index(t1);
        assert(i * 512 <= s1.word_of(t1, i1) < (i + 1) * 512);
        assert(s1.words[s1.word_of(t1, i1)] == 0);
        assert(0u64 as i64 == 0i64) by (bit_vector);
        lemma_entry_bits(0, 0, 0);
    }
}

/// What a mapping at the last level changes, where it succeeds and the page
/// is not part of a larger page: the root's entry is a branch to a table,
/// the entry that the address selects there is a branch to a second table,
/// and the entry that the address selects in that one is the leaf. Tables
/// that were missing are made from frames that were free, and hold zeros
/// beside these entries. Nothing else has changed.
pub proof fn lemma_map_effect(s: Tables, vaddr: u64, paddr: u64, flags: i64)
    requires
        s.shaped(),
        s.tree(),
        s.no_leaf_above(vaddr),
        s.map(vaddr, paddr, flags, 0).1 is Ok,
    ensures
        ({
            let m = map_effect(s, vaddr, paddr, flags);
            let i2 = vpn(vaddr, 2);
            let i1 = vpn(vaddr, 1);
            let i0 = vpn(vaddr, 0);
            &&& i2 < 512 && i1 < 512 && i0 < 512
            &&& m.end == s.map(vaddr, paddr, flags, 0).0
            &&& m.mid == entry_target(m.end.root[i2 as int])
            &&& m.low == entry_target(m.end.entry(Slot::Frame(m.mid, i1)))
            &&& m.mid_is_new == !entry_valid(s.root[i2 as int])
            &&& m.low_is_new == (!entry_valid(s.root[i2 as int]) || !entry_valid(
                s.mid_entry(i2 as int, i1 as int),
            ))
            &&& m.end.shaped()
            &&& m.end.base == s.base
            &&& m.end.flags.len() == s.flags.len()
            &&& m.end.holds(m.mid)
            &&& m.end.holds(m.low)
            &&& m.mid != m.low
            &&& m.end.root == s.root.update(i2 as int, m.end.root[i2 as int])
            &&& is_branch(m.end.root[i2 as int])
            &&& is_branch(m.end.entry(Slot::Frame(m.mid, i1)))
            &&& m.end.entry(Slot::Frame(m.low, i0)) == leaf_entry(paddr, flags)
            &&& !m.mid_is_new ==> m.end.root[i2 as int] == s.root[i2 as int] && m.mid == s.mid(
                i2 as int,
            ) && s.mid_branch(i2 as int)
            &&& !m.low_is_new ==> m.end.entry(Slot::Frame(m.mid, i1)) == s.mid_entry(
                i2 as int,
                i1 as int,
            ) && m.low == s.low(i2 as int, i1 as int) && s.low_branch(i2 as int, i1 as int)
            &&& m.mid_is_new ==> m.low_is_new && s.flags[s.page_index(m.mid)] == 0
            &&& m.low_is_new ==> s.flags[s.page_index(m.low)] == 0
            &&& forall|p: int|
                0 <= p < s.flags.len() ==> #[trigger] m.end.flags[p] == if m.is_new_page(p) {
                    3u8
                } else {
                    s.flags[p]
                }
            &&& forall|w: int|
                0 <= w < s.words.len() && w != m.end.word_of(m.mid, i1) && w != m.end.word_of(
                    m.low,
                    i0,
                ) ==> #[trigger] m.end.words[w] == if m.in_new_table(w) {
                    0u64
                } else {
                    s.words[w]
                }
        }),
{
    reveal(map_effect);
    let i2 = vpn(vaddr, 2);
    let i1 = vpn(vaddr, 1);
    let i0 = vpn(vaddr, 0);
    let leaf = leaf_entry(paddr, flags);
    lemma_map_top(s, vaddr, paddr, flags);
    lemma_entry_round_trip(leaf);
    let s1 = after_top(s, vaddr);
    let t1 = entry_target(s1.root[i2 as int]);
    let middle = Slot::Frame(t1, i1);
    let s0 = after_middle(s, vaddr);
    assert(s0 == s1.descend(middle, i0).0);
    lemma_descend(s1, middle, i0);
    let t0 = entry_target(s0.entry(middle));
    let bottom = Slot::Frame(t0, i0);
    let end = s0.set(bottom, leaf);
    let m = map_effect(s, vaddr, paddr, flags);
    assert(m.end == end);
    assert(0 <= s1.word_of(t1, i1) < s1.words.len());
    if entry_valid(s1.entry(middle)) {
        assert(entry_valid(s.root[i2 as int]));
        assert(s.low_branch(i2 as int, i1 as int));
        lemma_tree_low(s, i2 as int, i1 as int);
        assert(t0 == s.low(i2 as int, i1 as int));
        assert(t0 != t1);
        assert(s0 == s);
    } else {
        lemma_descend_effect(s1, middle, i0);
        assert(s1.flags[s1.page_index(t0)] == 0);
        assert(t0 != t1);
    }
    assert(s0.word_of(t0, i0) != s0.word_of(t1, i1));
    assert(0 <= s0.word_of(t0, i0) < s0.words.len());
    assert(end.root == s0.root);
    assert(s0.root == s1.root);
    assert(end.root[i2 as int] == s1.root[i2 as int]);
    assert(m.mid == t1);
    assert(end.entry(middle) == s0.entry(middle));
    assert(m.low == t0);
    assert(end.root =~= s.root.update(i2 as int, end.root[i2 as int]));
    assert(end.entry(bottom) == leaf);
    assert(end.flags == s0.flags);
    assert forall|p: int| 0 <= p < s.flags.len() implies #[trigger] end.flags[p] == if m.is_new_page(
        p,
    ) {
        3u8
    } else {
        s.flags[p]
    } by {}
    assert forall|w: int|
        0 <= w < s.words.len() && w != end.word_of(t1, i1) && w != end.word_of(
            t0,
            i0,
        ) implies #[trigger] end.words[w] == if m.in_new_table(w) {
        0u64
    } else {
        s.words[w]
    } by {}
}

/// Translation round trip: after a page was mapped at the last level, every
/// address of the page translates to the address at the same distance into
/// the physical page.
pub proof fn lemma_map_translate(s: Tables, vaddr: u64, paddr: u64, flags: i64, k: u64)
    requires
        s.shaped(),
        s.tree(),
        vaddr % 4096 == 0,
        paddr % 4096 == 0,
        paddr < 0x100_0000_0000_0000,
        flags & 14 != 0,
        flags & !0xffi64 == 0,
        k < 4096,
        s.no_leaf_above(vaddr),
        s.map(vaddr, paddr, flags, 0).1 is Ok,
    ensures
        s.map(vaddr, paddr, flags, 0).0.translate((vaddr + k) as u64) == Some((paddr + k) as u64),
{
    let v = (vaddr + k) as u64;
    let m = map_effect(s, vaddr, paddr, flags);
    lemma_map_effect(s, vaddr, paddr, flags);
    lemma_leaf_bits(vaddr, paddr, flags, k);
    let end = m.end;
    assert(end.step(end.root[vpn(v, 2) as int], 2, v) == Step::Descend(m.mid));
    assert(end.step(end.entry(Slot::Frame(m.mid, vpn(v, 1))), 1, v) == Step::Descend(m.low));
    assert(end.step(end.entry(Slot::Frame(m.low, vpn(v, 0))), 0, v) == Step::Mapped(
        (paddr + k) as u64,
    ));
}

/// Unmapped miss, at the start: under a root without entries no address
/// translates.
pub proof fn lemma_empty_root_maps_nothing(s: Tables, vaddr: u64)
    requires
        s.root.len() == 512,
        forall|i: int| 0 <= i < 512 ==> s.root[i] == 0,
    ensures
        s.translate(vaddr) is None,
{
    lemma_entry_bits(vaddr, 0, 0);
}

/// Entries of different tables, and different entries of one table, are
/// different words, and the entries of a table are the words of its frame.
pub proof fn lemma_words_apart(s: Tables, a: u64, i: u64, b: u64, j: u64)
    requires
        s.base % 4096 == 0,
        s.holds(a),
        s.holds(b),
        i < 512,
        j < 512,
    ensures
        0 <= s.word_of(a, i) < s.flags.len() * 512,
        a != b || i != j ==> s.word_of(a, i) != s.word_of(b, j),
        s.page_index(a) != s.page_index(b) ==> !(s.word_of(b, 0) <= s.word_of(a, i) < s.word_of(
            b,
            0,
        ) + 512),
        s.word_of(a, 0) <= s.word_of(a, i) < s.word_of(a, 0) + 512,
{
}

/// An entry of a table that was there before a mapping is what it was,
/// unless it is one of the two entries that the mapping wrote.
pub proof fn lemma_entry_kept(
    s: Tables,
    vaddr: u64,
    paddr: u64,
    flags: i64,
    table: u64,
    index: u64,
)
    requires
        s.shaped(),
        s.tree(),
        s.no_leaf_above(vaddr),
        s.map(vaddr, paddr, flags, 0).1 is Ok,
        s.owned(table),
        index < 512,
        table != map_effect(s, vaddr, paddr, flags).mid || index != vpn(vaddr, 1),
        table != map_effect(s, vaddr, paddr, flags).low || index != vpn(vaddr, 0),
    ensures
        map_effect(s, vaddr, paddr, flags).end.entry(Slot::Frame(table, index)) == s.entry(
            Slot::Frame(table, index),
        ),
{
    let m = map_effect(s, vaddr, paddr, flags);
    lemma_map_effect(s, vaddr, paddr, flags);
    let w = s.word_of(table, index);
    lemma_words_apart(s, table, index, m.mid, vpn(vaddr, 1));
    lemma_words_apart(s, table, index, m.low, vpn(vaddr, 0));
    assert(m.end.word_of(m.mid, vpn(vaddr, 1)) == s.word_of(m.mid, vpn(vaddr, 1)));
    assert(m.end.word_of(m.low, vpn(vaddr, 0)) == s.word_of(m.low, vpn(vaddr, 0)));
    assert(m.end.word_of(m.mid, 0) == s.word_of(m.mid, 0));
    assert(m.end.word_of(m.low, 0) == s.word_of(m.low, 0));
    assert(!m.in_new_table(w));
    assert(m.end.words[w] == s.words[w]);
}

/// An entry of a table that a mapping made is zero, unless it is one of the
/// two entries that the mapping wrote.
pub proof fn lemma_entry_zero(s: Tables, vaddr: u64, paddr: u64, flags: i64, low: bool, index: u64)
    requires
        s.shaped(),
        s.tree(),
        s.no_leaf_above(vaddr),
        s.map(vaddr, paddr, flags, 0).1 is Ok,
        index < 512,
        low ==> map_effect(s, vaddr, paddr, flags).low_is_new && index != vpn(vaddr, 0),
        !low ==> map_effect(s, vaddr, paddr, flags).mid_is_new && index != vpn(vaddr, 1),
    ensures
        !entry_valid(
            map_effect(s, vaddr, paddr, flags).end.entry(
                Slot::Frame(
                    if low {
                        map_effect(s, vaddr, paddr, flags).low
                    } else {
                        map_effect(s, vaddr, paddr, flags).mid
                    },
                    index,
                ),
            ),
        ),
{
    let m = map_effect(s, vaddr, paddr, flags);
    lemma_map_effect(s, vaddr, paddr, flags);
    let table = if low {
        m.low
    } else {
        m.mid
    };
    let w = m.end.word_of(table, index);
    lemma_words_apart(m.end, table, index, m.mid, vpn(vaddr, 1));
    lemma_words_apart(m.end, table, index, m.low, vpn(vaddr, 0));
    assert(m.in_new_table(w));
    assert(m.end.words[w] == 0);
    assert(0u64 as i64 == 0i64) by (bit_vector);
    lemma_entry_bits(0, 0, 0);
}

/// Mapping one page leaves the translation of every address of every other
/// page as it is.
pub proof fn lemma_map_keeps_others(
    s: Tables,
    vaddr: u64,
    paddr: u64,
    flags: i64,
    other: u64,
)
    requires
        s.shaped(),
        s.tree(),
        s.no_leaf_above(vaddr),
        s.map(vaddr, paddr, flags, 0).1 is Ok,
        vpn(other, 2) != vpn(vaddr, 2) || vpn(other, 1) != vpn(vaddr, 1) || vpn(other, 0) != vpn(
            vaddr,
            0,
        ),
    ensures
        s.map(vaddr, paddr, flags, 0).0.translate(other) == s.translate(other),
{
    let m = map_effect(s, vaddr, paddr, flags);
    let end = m.end;
    lemma_map_effect(s, vaddr, paddr, flags);
    lemma_entry_bits(other, 0, 0);
    let i2 = vpn(vaddr, 2);
    let i1 = vpn(vaddr, 1);
    let j2 = vpn(other, 2);
    let j1 = vpn(other, 1);
    let j0 = vpn(other, 0);
    if j2 != i2 {
        assert(end.root[j2 as int] == s.root[j2 as int]);
        if s.step(s.root[j2 as int], 2, other) is Descend {
            let u1 = s.mid(j2 as int);
            assert(s.mid_branch(j2 as int));
            lemma_tree_mid(s, j2 as int);
            if !m.mid_is_new {
                assert(s.mid_branch(i2 as int));
            }
            if !m.low_is_new {
                assert(s.low_branch(i2 as int, i1 as int));
            }
            lemma_entry_kept(s, vaddr, paddr, flags, u1, j1);
            let e1 = s.entry(Slot::Frame(u1, j1));
            if s.step(e1, 1, other) is Descend {
                let u0 = s.low(j2 as int, j1 as int);
                assert(s.low_branch(j2 as int, j1 as int));
                lemma_tree_low(s, j2 as int, j1 as int);
                lemma_entry_kept(s, vaddr, paddr, flags, u0, j0);
            }
        }
    } else if j1 != i1 {
        assert(end.step(end.root[j2 as int], 2, other) == Step::Descend(m.mid));
        if m.mid_is_new {
            lemma_entry_zero(s, vaddr, paddr, flags, false, j1);
        } else {
            lemma_tree_mid(s, i2 as int);
            if !m.low_is_new {
                assert(s.low_branch(i2 as int, i1 as int));
                lemma_tree_low(s, i2 as int, i1 as int);
            }
            lemma_entry_kept(s, vaddr, paddr, flags, m.mid, j1);
            let e1 = s.entry(Slot::Frame(m.mid, j1));
            assert(s.step(s.root[j2 as int], 2, other) == Step::Descend(m.mid));
            if s.step(e1, 1, other) is Descend {
                let u0 = s.low(i2 as int, j1 as int);
                assert(s.low_branch(i2 as int, j1 as int));
                lemma_tree_low(s, i2 as int, j1 as int);
                lemma_entry_kept(s, vaddr, paddr, flags, u0, j0);
            }
        }
    } else {
        assert(end.step(end.root[j2 as int], 2, other) == Step::Descend(m.mid));
        assert(end.step(end.entry(Slot::Frame(m.mid, j1)), 1, other) == Step::Descend(m.low));
        if m.low_is_new {
            lemma_entry_zero(s, vaddr, paddr, flags, true, j0);
        } else {
            lemma_tree_mid(s, i2 as int);
            lemma_tree_low(s, i2 as int, i1 as int);
            lemma_entry_kept(s, vaddr, paddr, flags, m.low, j0);
            assert(s.step(s.root[j2 as int], 2, other) == Step::Descend(m.mid));
            assert(s.step(s.entry(Slot::Frame(m.mid, j1)), 1, other) == Step::Descend(m.low));
        }
    }
}

/// Unmapped miss: mapping one page leaves every address of every other
/// page that translated to nothing translating to nothing.
pub proof fn lemma_map_keeps_unmapped(
    s: Tables,
    vaddr: u64,
    paddr: u64,
    flags: i64,
    other: u64,
)
    requires
        s.shaped(),
        s.tree(),
        s.no_leaf_above(vaddr),
        s.map(vaddr, paddr, flags, 0).1 is Ok,
        s.translate(other) is None,
        vpn(other, 2) != vpn(vaddr, 2) || vpn(other, 1) != vpn(vaddr, 1) || vpn(other, 0) != vpn(
            vaddr,
            0,
        ),
    ensures
        s.map(vaddr, paddr, flags, 0).0.translate(other) is None,
{
    lemma_map_keeps_others(s, vaddr, paddr, flags, other);
}

impl Tables {
    /// No leaf stands above the last level: every mapping is of a single
    /// page.
    pub open spec fn flat(self) -> bool {
        &&& forall|i: int| 0 <= i < 512 ==> !is_leaf(#[trigger] self.root[i])
        &&& forall|i: int, j: int|
            self.mid_branch(i) && 0 <= j < 512 ==> !is_leaf(#[trigger] self.mid_entry(i, j))
    }
}

/// After a mapping, a branch entry of the root points to the table that the
/// mapping went through, or is an entry that was there before.
pub proof fn lemma_end_mid(s: Tables, vaddr: u64, paddr: u64, flags: i64, i: int)
    requires
        s.shaped(),
        s.tree(),
        s.no_leaf_above(vaddr),
        s.map(vaddr, paddr, flags, 0).1 is Ok,
        0 <= i < 512,
    ensures
        ({
            let m = map_effect(s, vaddr, paddr, flags);
            &&& i == vpn(vaddr, 2) ==> m.end.mid_branch(i) && m.end.mid(i) == m.mid
            &&& i != vpn(vaddr, 2) ==> m.end.root[i] == s.root[i]
        }),
{
    lemma_map_effect(s, vaddr, paddr, flags);
}

/// What the mapping's two tables and the tables that were there before have
/// to do with each other: they are different tables, and all of them are in
/// frames of their own after the mapping.
pub proof fn lemma_new_and_old(s: Tables, vaddr: u64, paddr: u64, flags: i64, table: u64)
    requires
        s.shaped(),
        s.tree(),
        s.no_leaf_above(vaddr),
        s.map(vaddr, paddr, flags, 0).1 is Ok,
    ensures
        ({
            let m = map_effect(s, vaddr, paddr, flags);
            &&& m.end.owned(m.mid)
            &&& m.end.owned(m.low)
            &&& m.mid != m.low
            &&& s.owned(table) ==> m.end.owned(table)
            &&& s.owned(table) && m.mid_is_new ==> table != m.mid
            &&& s.owned(table) && m.low_is_new ==> table != m.low
        }),
{
    let m = map_effect(s, vaddr, paddr, flags);
    lemma_map_effect(s, vaddr, paddr, flags);
    if !m.mid_is_new {
        lemma_tree_mid(s, vpn(vaddr, 2) as int);
    }
    if !m.low_is_new {
        lemma_tree_low(s, vpn(vaddr, 2) as int, vpn(vaddr, 1) as int);
    }
    assert(m.end.flags[s.page_index(m.mid)] == 3);
    assert(m.end.flags[s.page_index(m.low)] == 3);
    if s.owned(table) {
        assert(m.end.flags[s.page_index(table)] == 3);
    }
}

/// After a mapping, an entry of a table under the root is the branch to the
/// mapping's last table, or zero in a table that the mapping made, or what
/// it was before.
pub proof fn lemma_end_mid_entry(s: Tables, vaddr: u64, paddr: u64, flags: i64, i: int, j: int)
    requires
        s.shaped(),
        s.tree(),
        s.no_leaf_above(vaddr),
        s.map(vaddr, paddr, flags, 0).1 is Ok,
        0 <= i < 512,
        0 <= j < 512,
        map_effect(s, vaddr, paddr, flags).end.mid_branch(i),
    ensures
        ({
            let m = map_effect(s, vaddr, paddr, flags);
            let here = i == vpn(vaddr, 2) && j == vpn(vaddr, 1);
            let blank = i == vpn(vaddr, 2) && j != vpn(vaddr, 1) && m.mid_is_new;
            &&& here ==> is_branch(m.end.mid_entry(i, j)) && m.end.low(i, j) == m.low
            &&& blank ==> !entry_valid(m.end.mid_entry(i, j))
            &&& !here && !blank ==> s.mid_branch(i) && m.end.mid(i) == s.mid(i) && m.end.mid_entry(
                i,
                j,
            ) == s.mid_entry(i, j)
        }),
{
    let m = map_effect(s, vaddr, paddr, flags);
    let i2 = vpn(vaddr, 2) as int;
    let i1 = vpn(vaddr, 1) as int;
    lemma_map_effect(s, vaddr, paddr, flags);
    lemma_end_mid(s, vaddr, paddr, flags, i);
    if i == i2 {
        if j != i1 {
            if m.mid_is_new {
                lemma_entry_zero(s, vaddr, paddr, flags, false, j as u64);
            } else {
                lemma_tree_mid(s, i2);
                lemma_new_and_old(s, vaddr, paddr, flags, m.mid);
                lemma_entry_kept(s, vaddr, paddr, flags, m.mid, j as u64);
            }
        }
    } else {
        assert(s.mid_branch(i));
        lemma_tree_mid(s, i);
        lemma_new_and_old(s, vaddr, paddr, flags, s.mid(i));
        if !m.mid_is_new {
            assert(s.mid_branch(i2));
        }
        if !m.low_is_new {
            assert(s.low_branch(i2, i1));
        }
        lemma_entry_kept(s, vaddr, paddr, flags, s.mid(i), j as u64);
    }
}

/// After a mapping, a table of the last level is the one that the mapping
/// went through, or one that was there before.
pub proof fn lemma_end_low(s: Tables, vaddr: u64, paddr: u64, flags: i64, i: int, j: int)
    requires
        s.shaped(),
        s.tree(),
        s.no_leaf_above(vaddr),
        s.map(vaddr, paddr, flags, 0).1 is Ok,
        map_effect(s, vaddr, paddr, flags).end.low_branch(i, j),
    ensures
        ({
            let m = map_effect(s, vaddr, paddr, flags);
            let here = i == vpn(vaddr, 2) && j == vpn(vaddr, 1);
            &&& here ==> m.end.low(i, j) == m.low
            &&& !here ==> s.low_branch(i, j) && m.end.low(i, j) == s.low(i, j) && s.low(i, j)
                != m.low && s.low(i, j) != m.mid
        }),
{
    let m = map_effect(s, vaddr, paddr, flags);
    let i2 = vpn(vaddr, 2) as int;
    let i1 = vpn(vaddr, 1) as int;
    lemma_map_effect(s, vaddr, paddr, flags);
    lemma_end_mid_entry(s, vaddr, paddr, flags, i, j);
    if !(i == i2 && j == i1) {
        assert(s.low_branch(i, j));
        lemma_tree_low(s, i, j);
        lemma_new_and_old(s, vaddr, paddr, flags, s.low(i, j));
        if !m.mid_is_new {
            assert(s.mid_branch(i2));
        }
        if !m.low_is_new {
            assert(s.low_branch(i2, i1));
        }
    }
}

/// After a mapping, a table under the root is the one that the mapping went
/// through, or one that was there before.
pub proof fn lemma_end_mid_table(s: Tables, vaddr: u64, paddr: u64, flags: i64, i: int)
    requires
        s.shaped(),
        s.tree(),
        s.no_leaf_above(vaddr),
        s.map(vaddr, paddr, flags, 0).1 is Ok,
        map_effect(s, vaddr, paddr, flags).end.mid_branch(i),
    ensures
        ({
            let m = map_effect(s, vaddr, paddr, flags);
            &&& i == vpn(vaddr, 2) ==> m.end.mid(i) == m.mid
            &&& i != vpn(vaddr, 2) ==> s.mid_branch(i) && m.end.mid(i) == s.mid(i) && s.mid(i)
                != m.mid && s.mid(i) != m.low
        }),
{
    let m = map_effect(s, vaddr, paddr, flags);
    let i2 = vpn(vaddr, 2) as int;
    let i1 = vpn(vaddr, 1) as int;
    lemma_map_effect(s, vaddr, paddr, flags);
    lemma_end_mid(s, vaddr, paddr, flags, i);
    if i != i2 {
        assert(s.mid_branch(i));
        lemma_tree_mid(s, i);
        lemma_new_and_old(s, vaddr, paddr, flags, s.mid(i));
        if !m.mid_is_new {
            assert(s.mid_branch(i2));
        }
        if !m.low_is_new {
            assert(s.low_branch(i2, i1));
        }
    }
}

/// Mapping a page keeps the tables a tree.
pub proof fn lemma_map_keeps_tree(s: Tables, vaddr: u64, paddr: u64, flags: i64)
    requires
        s.shaped(),
        s.tree(),
        s.no_leaf_above(vaddr),
        s.map(vaddr, paddr, flags, 0).1 is Ok,
    ensures
        s.map(vaddr, paddr, flags, 0).0.shaped(),
        s.map(vaddr, paddr, flags, 0).0.tree(),
{
    let m = map_effect(s, vaddr, paddr, flags);
    let end = m.end;
    lemma_map_effect(s, vaddr, paddr, flags);
    lemma_new_and_old(s, vaddr, paddr, flags, 0);
    assert forall|i: int| #[trigger] end.mid_branch(i) implies end.owned(end.mid(i)) by {
        lemma_end_mid_table(s, vaddr, paddr, flags, i);
        if i != vpn(vaddr, 2) {
            lemma_tree_mid(s, i);
            lemma_new_and_old(s, vaddr, paddr, flags, s.mid(i));
        }
    }
    assert forall|i: int, j: int| #[trigger] end.low_branch(i, j) implies end.owned(
        end.low(i, j),
    ) by {
        lemma_end_low(s, vaddr, paddr, flags, i, j);
        if !(i == vpn(vaddr, 2) && j == vpn(vaddr, 1)) {
            lemma_tree_low(s, i, j);
            lemma_new_and_old(s, vaddr, paddr, flags, s.low(i, j));
        }
    }
    assert forall|i: int, i2: int|
        #[trigger] end.mid_branch(i) && #[trigger] end.mid_branch(i2) && i != i2 implies end.mid(i)
        != end.mid(i2) by {
        lemma_end_mid_table(s, vaddr, paddr, flags, i);
        lemma_end_mid_table(s, vaddr, paddr, flags, i2);
        if i != vpn(vaddr, 2) && i2 != vpn(vaddr, 2) {
            lemma_tree_mid(s, i);
        }
    }
    assert forall|i: int, j: int, i2: int|
        #[trigger] end.low_branch(i, j) && #[trigger] end.mid_branch(i2) implies end.low(i, j)
        != end.mid(i2) by {
        lemma_end_low(s, vaddr, paddr, flags, i, j);
        lemma_end_mid_table(s, vaddr, paddr, flags, i2);
        if !(i == vpn(vaddr, 2) && j == vpn(vaddr, 1)) && i2 != vpn(vaddr, 2) {
            lemma_tree_low(s, i, j);
        }
    }
    assert forall|i: int, j: int, i2: int, j2: int|
        #[trigger] end.low_branch(i, j) && #[trigger] end.low_branch(i2, j2) && (i != i2 || j
            != j2) implies end.low(i, j) != end.low(i2, j2) by {
        lemma_end_low(s, vaddr, paddr, flags, i, j);
        lemma_end_low(s, vaddr, paddr, flags, i2, j2);
        if !(i == vpn(vaddr, 2) && j == vpn(vaddr, 1)) && !(i2 == vpn(vaddr, 2) && j2 == vpn(
            vaddr,
            1,
        )) {
            lemma_tree_low(s, i, j);
        }
    }
    reveal(Tables::tree);
}

/// Mapping a page makes no leaf above the last level.
pub proof fn lemma_map_keeps_flat(s: Tables, vaddr: u64, paddr: u64, flags: i64)
    requires
        s.shaped(),
        s.tree(),
        s.flat(),
        s.map(vaddr, paddr, flags, 0).1 is Ok,
    ensures
        s.map(vaddr, paddr, flags, 0).0.flat(),
{
    lemma_flat_no_leaf_above(s, vaddr);
    let m = map_effect(s, vaddr, paddr, flags);
    let end = m.end;
    lemma_map_effect(s, vaddr, paddr, flags);
    assert forall|i: int| 0 <= i < 512 implies !is_leaf(#[trigger] end.root[i]) by {
        lemma_end_mid(s, vaddr, paddr, flags, i);
    }
    assert forall|i: int, j: int| end.mid_branch(i) && 0 <= j < 512 implies !is_leaf(
        #[trigger] end.mid_entry(i, j),
    ) by {
        lemma_end_mid_entry(s, vaddr, paddr, flags, i, j);
    }
}

/// Where no leaf stands above the last level, no page is part of a larger
/// page.
pub proof fn lemma_flat_no_leaf_above(s: Tables, vaddr: u64)
    requires
        s.flat(),
    ensures
        s.no_leaf_above(vaddr),
{
    lemma_entry_bits(vaddr, 0, 0);
    let i2 = vpn(vaddr, 2) as int;
    let i1 = vpn(vaddr, 1) as int;
    assert(!is_leaf(s.root[i2]));
    if is_branch(s.root[i2]) {
        assert(s.mid_branch(i2));
        assert(!is_leaf(s.mid_entry(i2, i1)));
    }
}

/// A request to map the page of `vaddr` to the page at `paddr`.
pub struct MapRequest {
    pub vaddr: u64,
    pub paddr: u64,
    pub flags: i64,
}

/// The state after the requests were served in turn, each by a mapping at
/// the last level; `None` if one of them could not be.
pub open spec fn map_all(s: Tables, requests: Seq<MapRequest>) -> Option<Tables>
    decreases requests.len(),
{
    if requests.len() == 0 {
        Some(s)
    } else if s.map(requests[0].vaddr, requests[0].paddr, requests[0].flags, 0).1 is Ok {
        map_all(
            s.map(requests[0].vaddr, requests[0].paddr, requests[0].flags, 0).0,
            requests.drop_first(),
        )
    } else {
        None
    }
}

/// Whether two addresses select the same entries on every level: whether
/// they lie in the same page of the 39-bit address space.
pub open spec fn same_page(a: u64, b: u64) -> bool {
    vpn(a, 2) == vpn(b, 2) && vpn(a, 1) == vpn(b, 1) && vpn(a, 0) == vpn(b, 0)
}

/// Any number of mappings of other pages leave an address that translated
/// to nothing translating to nothing, and leave the tables a tree without
/// leaves above the last level.
pub proof fn lemma_map_all_keeps_unmapped(s: Tables, requests: Seq<MapRequest>, other: u64)
    requires
        s.shaped(),
        s.tree(),
        s.flat(),
        s.translate(other) is None,
        map_all(s, requests) is Some,
        forall|k: int| 0 <= k < requests.len() ==> !same_page(#[trigger] requests[k].vaddr, other),
    ensures
        map_all(s, requests).unwrap().shaped(),
        map_all(s, requests).unwrap().tree(),
        map_all(s, requests).unwrap().flat(),
        map_all(s, requests).unwrap().translate(other) is None,
    decreases requests.len(),
{
    if requests.len() > 0 {
        let first = requests[0];
        let next = s.map(first.vaddr, first.paddr, first.flags, 0).0;
        assert(!same_page(requests[0].vaddr, other));
        lemma_flat_no_leaf_above(s, first.vaddr);
        lemma_map_keeps_tree(s, first.vaddr, first.paddr, first.flags);
        lemma_map_keeps_flat(s, first.vaddr, first.paddr, first.flags);
        lemma_map_keeps_unmapped(s, first.vaddr, first.paddr, first.flags, other);
        let rest = requests.drop_first();
        assert forall|k: int| 0 <= k < rest.len() implies !same_page(
            #[trigger] rest[k].vaddr,
            other,
        ) by {
            assert(rest[k] == requests[k + 1]);
        }
        lemma_map_all_keeps_unmapped(next, rest, other);
    }
}

/// Unmapped miss: under tables that were built from an empty root by
/// mappings at the last level, an address whose page was never passed to
/// `map` translates to nothing.
pub proof fn lemma_never_mapped(s: Tables, requests: Seq<MapRequest>, other: u64)
    requires
        s.shaped(),
        forall|i: int| 0 <= i < 512 ==> s.root[i] == 0,
        map_all(s, requests) is Some,
        forall|k: int| 0 <= k < requests.len() ==> !same_page(#[trigger] requests[k].vaddr, other),
    ensures
        map_all(s, requests).unwrap().translate(other) is None,
{
    lemma_entry_bits(0, 0, 0);
    lemma_empty_root_maps_nothing(s, other);
    assert(s.tree()) by {
        reveal(Tables::tree);
        assert forall|i: int| !s.mid_branch(i) by {}
    }
    assert(0i64 & 14 == 0) by (bit_vector);
    lemma_map_all_keeps_unmapped(s, requests, other);
}

} // verus!
