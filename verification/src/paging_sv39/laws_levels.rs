//! Laws of mapping with leaves at any level.

use crate::paging_sv39::entry::{
    entry_target, entry_valid, leaf_entry, lemma_entry_bits, vpn,
};
use crate::paging_sv39::laws::{
    is_leaf, lemma_descend, lemma_descend_effect, lemma_empty_root_maps_nothing,
    lemma_map_keeps_tree, lemma_map_keeps_unmapped, lemma_words_apart,
};
use crate::paging_sv39::mapping::{lemma_entry_round_trip, MapError, Slot, Step, Tables};
use crate::paging_sv39::tree::{is_branch, lemma_tree_low, lemma_tree_mid};
use vstd::prelude::*;

verus! {

/// A leaf entry made with an access flag is valid and a leaf.
pub proof fn lemma_leaf_is_leaf(paddr: u64, flags: i64)
    requires
        flags & 14 != 0,
    ensures
        is_leaf(leaf_entry(paddr, flags)),
        !is_branch(leaf_entry(paddr, flags)),
{
    let e = leaf_entry(paddr, flags);
    assert(e & 1 != 0 && e & 14 != 0) by (bit_vector)
        requires
            e == ((((paddr >> 30) & 0x3ff_ffff) << 28) as i64) | ((((paddr >> 21) & 0x1ff)
                << 19) as i64) | ((((paddr >> 12) & 0x1ff) << 10) as i64) | flags | 1,
            flags & 14 != 0,
    ;
}

/// What a mapping at the highest level changes: the root's entry becomes
/// the leaf, and nothing else changes.
pub proof fn lemma_map2_effect(s: Tables, vaddr: u64, paddr: u64, flags: i64)
    requires
        s.shaped(),
    ensures
        ({
            let end = s.map(vaddr, paddr, flags, 2).0;
            &&& vpn(vaddr, 2) < 512
            &&& s.map(vaddr, paddr, flags, 2).1 is Ok
            &&& end.shaped()
            &&& end.base == s.base
            &&& end.flags == s.flags
            &&& end.words == s.words
            &&& end.root == s.root.update(vpn(vaddr, 2) as int, leaf_entry(paddr, flags))
        }),
{
    reveal(Tables::map);
    lemma_entry_bits(vaddr, 0, 0);
}

/// A mapping at the highest level keeps the tables a tree.
pub proof fn lemma_map2_keeps_tree(s: Tables, vaddr: u64, paddr: u64, flags: i64)
    requires
        s.shaped(),
        s.tree(),
        flags & 14 != 0,
    ensures
        s.map(vaddr, paddr, flags, 2).0.shaped(),
        s.map(vaddr, paddr, flags, 2).0.tree(),
{
    let end = s.map(vaddr, paddr, flags, 2).0;
    let i2 = vpn(vaddr, 2) as int;
    lemma_map2_effect(s, vaddr, paddr, flags);
    lemma_leaf_is_leaf(paddr, flags);
    assert forall|i: int| #[trigger] end.mid_branch(i) implies s.mid_branch(i) && i != i2
        && end.mid(i) == s.mid(i) by {}
    assert forall|i: int, j: int| #[trigger] end.low_branch(i, j) implies s.low_branch(i, j)
        && end.low(i, j) == s.low(i, j) by {}
    assert forall|i: int| #[trigger] end.mid_branch(i) implies end.owned(end.mid(i)) by {
        lemma_tree_mid(s, i);
    }
    assert forall|i: int, j: int| #[trigger] end.low_branch(i, j) implies end.owned(
        end.low(i, j),
    ) by {
        lemma_tree_low(s, i, j);
    }
    assert forall|i: int, i2: int|
        #[trigger] end.mid_branch(i) && #[trigger] end.mid_branch(i2) && i != i2 implies end.mid(i)
        != end.mid(i2) by {
        lemma_tree_mid(s, i);
    }
    assert forall|i: int, j: int, i2: int|
        #[trigger] end.low_branch(i, j) && #[trigger] end.mid_branch(i2) implies end.low(i, j)
        != end.mid(i2) by {
        lemma_tree_low(s, i, j);
    }
    assert forall|i: int, j: int, i2: int, j2: int|
        #[trigger] end.low_branch(i, j) && #[trigger] end.low_branch(i2, j2) && (i != i2 || j
            != j2) implies end.low(i, j) != end.low(i2, j2) by {
        lemma_tree_low(s, i, j);
    }
    reveal(Tables::tree);
}

/// A mapping at the highest level leaves every address outside its page
/// translating as before.
pub proof fn lemma_map2_keeps_others(s: Tables, vaddr: u64, paddr: u64, flags: i64, other: u64)
    requires
        s.shaped(),
        vpn(other, 2) != vpn(vaddr, 2),
    ensures
        s.map(vaddr, paddr, flags, 2).0.translate(other) == s.translate(other),
{
    lemma_map2_effect(s, vaddr, paddr, flags);
    lemma_entry_bits(other, 0, 0);
    let end = s.map(vaddr, paddr, flags, 2).0;
    assert(end.root[vpn(other, 2) as int] == s.root[vpn(other, 2) as int]);
}

/// What a mapping at the middle level changes, where it succeeds and the
/// root's entry is no leaf: the root's entry is a branch to a table, and
/// the entry that the address selects there is the leaf. A table that was
/// missing is made from a frame that was free, and holds zeros beside the
/// leaf. Nothing else has changed.
pub proof fn lemma_map1_effect(s: Tables, vaddr: u64, paddr: u64, flags: i64)
    requires
        s.shaped(),
        s.tree(),
        !is_leaf(s.root[vpn(vaddr, 2) as int]),
        s.map(vaddr, paddr, flags, 1).1 is Ok,
    ensures
        ({
            let end = s.map(vaddr, paddr, flags, 1).0;
            let i2 = vpn(vaddr, 2);
            let i1 = vpn(vaddr, 1);
            let mid = entry_target(end.root[i2 as int]);
            let fresh = !entry_valid(s.root[i2 as int]);
            &&& i2 < 512 && i1 < 512
            &&& end.shaped()
            &&& end.base == s.base
            &&& end.flags.len() == s.flags.len()
            &&& end.holds(mid)
            &&& end.root == s.root.update(i2 as int, end.root[i2 as int])
            &&& is_branch(end.root[i2 as int])
            &&& end.entry(Slot::Frame(mid, i1)) == leaf_entry(paddr, flags)
            &&& end.flags[s.page_index(mid)] == 3
            &&& !fresh ==> end.root[i2 as int] == s.root[i2 as int] && s.mid_branch(i2 as int)
                && mid == s.mid(i2 as int) && end.flags == s.flags
            &&& fresh ==> s.flags[s.page_index(mid)] == 0 && end.flags == s.flags.update(
                s.page_index(mid),
                3u8,
            )
            &&& forall|w: int|
                0 <= w < s.words.len() && w != s.word_of(mid, i1) ==> #[trigger] end.words[w]
                    == if fresh && s.word_of(mid, 0) <= w < s.word_of(mid, 0) + 512 {
                    0u64
                } else {
                    s.words[w]
                }
        }),
{
    reveal(Tables::map);
    let i2 = vpn(vaddr, 2);
    let i1 = vpn(vaddr, 1);
    let leaf = leaf_entry(paddr, flags);
    lemma_entry_bits(vaddr, 0, 0);
    lemma_entry_round_trip(leaf);
    let top = Slot::Root(i2);
    let s1 = s.descend(top, i1).0;
    lemma_descend(s, top, i1);
    let t1 = entry_target(s1.entry(top));
    let middle = Slot::Frame(t1, i1);
    assert(s.descend(top, i1).1 == Ok::<Slot, MapError>(middle));
    let end = s1.set(middle, leaf);
    assert(s.map(vaddr, paddr, flags, 1).0 == end);
    lemma_words_apart(s1, t1, i1, t1, 0);
    if entry_valid(s.entry(top)) {
        assert(s.mid_branch(i2 as int));
        lemma_tree_mid(s, i2 as int);
    } else {
        lemma_descend_effect(s, top, i1);
    }
    assert(end.root == s1.root);
    assert(end.root =~= s.root.update(i2 as int, end.root[i2 as int]));
}

/// An entry of a table that was there before a mapping at the middle level
/// is what it was, unless it is the entry that the mapping wrote.
pub proof fn lemma_map1_entry_kept(
    s: Tables,
    vaddr: u64,
    paddr: u64,
    flags: i64,
    table: u64,
    index: u64,
)
    requires
        s.shaped(),
        s.tree(),
        !is_leaf(s.root[vpn(vaddr, 2) as int]),
        s.map(vaddr, paddr, flags, 1).1 is Ok,
        s.owned(table),
        index < 512,
        table != entry_target(s.map(vaddr, paddr, flags, 1).0.root[vpn(vaddr, 2) as int]) || index
            != vpn(vaddr, 1),
    ensures
        s.map(vaddr, paddr, flags, 1).0.entry(Slot::Frame(table, index)) == s.entry(
            Slot::Frame(table, index),
        ),
{
    let end = s.map(vaddr, paddr, flags, 1).0;
    let mid = entry_target(end.root[vpn(vaddr, 2) as int]);
    lemma_map1_effect(s, vaddr, paddr, flags);
    lemma_words_apart(s, table, index, mid, vpn(vaddr, 1));
    let w = s.word_of(table, index);
    assert(end.word_of(table, index) == w);
    assert(end.words[w] == s.words[w]);
}

/// An entry of a table that a mapping at the middle level made is zero,
/// unless it is the entry that the mapping wrote.
pub proof fn lemma_map1_entry_zero(s: Tables, vaddr: u64, paddr: u64, flags: i64, index: u64)
    requires
        s.shaped(),
        s.tree(),
        !entry_valid(s.root[vpn(vaddr, 2) as int]),
        s.map(vaddr, paddr, flags, 1).1 is Ok,
        index < 512,
        index != vpn(vaddr, 1),
    ensures
        !entry_valid(
            s.map(vaddr, paddr, flags, 1).0.entry(
                Slot::Frame(
                    entry_target(s.map(vaddr, paddr, flags, 1).0.root[vpn(vaddr, 2) as int]),
                    index,
                ),
            ),
        ),
{
    let end = s.map(vaddr, paddr, flags, 1).0;
    let mid = entry_target(end.root[vpn(vaddr, 2) as int]);
    lemma_map1_effect(s, vaddr, paddr, flags);
    lemma_words_apart(s, mid, index, mid, vpn(vaddr, 1));
    let w = s.word_of(mid, index);
    assert(end.word_of(mid, index) == w);
    assert(end.words[w] == 0);
    assert(0u64 as i64 == 0i64) by (bit_vector);
    lemma_entry_bits(0, 0, 0);
}

/// After a mapping at the middle level, a branch entry of the root points
/// to the table that the mapping went through, or is an entry that was
/// there before and points to another table.
pub proof fn lemma_map1_mid(s: Tables, vaddr: u64, paddr: u64, flags: i64, i: int)
    requires
        s.shaped(),
        s.tree(),
        !is_leaf(s.root[vpn(vaddr, 2) as int]),
        s.map(vaddr, paddr, flags, 1).1 is Ok,
        s.map(vaddr, paddr, flags, 1).0.mid_branch(i),
    ensures
        ({
            let end = s.map(vaddr, paddr, flags, 1).0;
            let mid = entry_target(end.root[vpn(vaddr, 2) as int]);
            &&& end.owned(end.mid(i))
            &&& i == vpn(vaddr, 2) ==> end.mid(i) == mid
            &&& i != vpn(vaddr, 2) ==> s.mid_branch(i) && end.mid(i) == s.mid(i) && s.mid(i) != mid
        }),
{
    let end = s.map(vaddr, paddr, flags, 1).0;
    let i2 = vpn(vaddr, 2) as int;
    lemma_map1_effect(s, vaddr, paddr, flags);
    if i != i2 {
        assert(end.root[i] == s.root[i]);
        lemma_tree_mid(s, i);
        if entry_valid(s.root[i2]) {
            assert(s.mid_branch(i2));
        }
    }
}

/// After a mapping at the middle level, a table of the last level is one
/// that was there before, under the same entry.
pub proof fn lemma_map1_low(s: Tables, vaddr: u64, paddr: u64, flags: i64, i: int, j: int)
    requires
        s.shaped(),
        s.tree(),
        flags & 14 != 0,
        !is_leaf(s.root[vpn(vaddr, 2) as int]),
        s.map(vaddr, paddr, flags, 1).1 is Ok,
        s.map(vaddr, paddr, flags, 1).0.low_branch(i, j),
    ensures
        ({
            let end = s.map(vaddr, paddr, flags, 1).0;
            let mid = entry_target(end.root[vpn(vaddr, 2) as int]);
            &&& s.low_branch(i, j)
            &&& end.low(i, j) == s.low(i, j)
            &&& end.owned(end.low(i, j))
            &&& s.low(i, j) != mid
        }),
{
    let end = s.map(vaddr, paddr, flags, 1).0;
    let i2 = vpn(vaddr, 2) as int;
    let i1 = vpn(vaddr, 1) as int;
    let mid = entry_target(end.root[i2]);
    lemma_map1_effect(s, vaddr, paddr, flags);
    lemma_map1_mid(s, vaddr, paddr, flags, i);
    lemma_leaf_is_leaf(paddr, flags);
    if i == i2 {
        if j != i1 {
            if entry_valid(s.root[i2]) {
                lemma_tree_mid(s, i2);
                lemma_map1_entry_kept(s, vaddr, paddr, flags, mid, j as u64);
            } else {
                lemma_map1_entry_zero(s, vaddr, paddr, flags, j as u64);
            }
        }
    } else {
        lemma_tree_mid(s, i);
        lemma_map1_entry_kept(s, vaddr, paddr, flags, s.mid(i), j as u64);
    }
    assert(s.low_branch(i, j));
    lemma_tree_low(s, i, j);
    if entry_valid(s.root[i2]) {
        assert(s.mid_branch(i2));
    }
}

/// A mapping at the middle level keeps the tables a tree.
pub proof fn lemma_map1_keeps_tree(s: Tables, vaddr: u64, paddr: u64, flags: i64)
    requires
        s.shaped(),
        s.tree(),
        flags & 14 != 0,
        !is_leaf(s.root[vpn(vaddr, 2) as int]),
        s.map(vaddr, paddr, flags, 1).1 is Ok,
    ensures
        s.map(vaddr, paddr, flags, 1).0.shaped(),
        s.map(vaddr, paddr, flags, 1).0.tree(),
{
    let end = s.map(vaddr, paddr, flags, 1).0;
    lemma_map1_effect(s, vaddr, paddr, flags);
    assert forall|i: int| #[trigger] end.mid_branch(i) implies end.owned(end.mid(i)) by {
        lemma_map1_mid(s, vaddr, paddr, flags, i);
    }
    assert forall|i: int, j: int| #[trigger] end.low_branch(i, j) implies end.owned(
        end.low(i, j),
    ) by {
        lemma_map1_low(s, vaddr, paddr, flags, i, j);
    }
    assert forall|i: int, i2: int|
        #[trigger] end.mid_branch(i) && #[trigger] end.mid_branch(i2) && i != i2 implies end.mid(i)
        != end.mid(i2) by {
        lemma_map1_mid(s, vaddr, paddr, flags, i);
        lemma_map1_mid(s, vaddr, paddr, flags, i2);
        if i != vpn(vaddr, 2) && i2 != vpn(vaddr, 2) {
            lemma_tree_mid(s, i);
        }
    }
    assert forall|i: int, j: int, i2: int|
        #[trigger] end.low_branch(i, j) && #[trigger] end.mid_branch(i2) implies end.low(i, j)
        != end.mid(i2) by {
        lemma_map1_low(s, vaddr, paddr, flags, i, j);
        lemma_map1_mid(s, vaddr, paddr, flags, i2);
        if i2 != vpn(vaddr, 2) {
            lemma_tree_low(s, i, j);
        }
    }
    assert forall|i: int, j: int, i2: int, j2: int|
        #[trigger] end.low_branch(i, j) && #[trigger] end.low_branch(i2, j2) && (i != i2 || j
            != j2) implies end.low(i, j) != end.low(i2, j2) by {
        lemma_map1_low(s, vaddr, paddr, flags, i, j);
        lemma_map1_low(s, vaddr, paddr, flags, i2, j2);
        lemma_tree_low(s, i, j);
    }
    reveal(Tables::tree);
}

/// A mapping at the middle level leaves every address outside its page that
/// translated to nothing translating to nothing.
pub proof fn lemma_map1_keeps_unmapped(s: Tables, vaddr: u64, paddr: u64, flags: i64, other: u64)
    requires
        s.shaped(),
        s.tree(),
        !is_leaf(s.root[vpn(vaddr, 2) as int]),
        s.map(vaddr, paddr, flags, 1).1 is Ok,
        s.translate(other) is None,
        vpn(other, 2) != vpn(vaddr, 2) || vpn(other, 1) != vpn(vaddr, 1),
    ensures
        s.map(vaddr, paddr, flags, 1).0.translate(other) is None,
{
    let end = s.map(vaddr, paddr, flags, 1).0;
    lemma_map1_effect(s, vaddr, paddr, flags);
    lemma_entry_bits(other, 0, 0);
    let i2 = vpn(vaddr, 2);
    let i1 = vpn(vaddr, 1);
    let j2 = vpn(other, 2);
    let j1 = vpn(other, 1);
    let j0 = vpn(other, 0);
    let mid = entry_target(end.root[i2 as int]);
    let fresh = !entry_valid(s.root[i2 as int]);
    if j2 != i2 {
        assert(end.root[j2 as int] == s.root[j2 as int]);
        if s.step(s.root[j2 as int], 2, other) is Descend {
            let u1 = s.mid(j2 as int);
            assert(s.mid_branch(j2 as int));
            lemma_tree_mid(s, j2 as int);
            if !fresh {
                assert(s.mid_branch(i2 as int));
            }
            lemma_map1_entry_kept(s, vaddr, paddr, flags, u1, j1);
            let e1 = s.entry(Slot::Frame(u1, j1));
            if s.step(e1, 1, other) is Descend {
                let u0 = s.low(j2 as int, j1 as int);
                assert(s.low_branch(j2 as int, j1 as int));
                lemma_tree_low(s, j2 as int, j1 as int);
                lemma_map1_entry_kept(s, vaddr, paddr, flags, u0, j0);
            }
        }
    } else {
        assert(end.step(end.root[j2 as int], 2, other) == Step::Descend(mid));
        if fresh {
            lemma_map1_entry_zero(s, vaddr, paddr, flags, j1);
        } else {
            lemma_tree_mid(s, i2 as int);
            lemma_map1_entry_kept(s, vaddr, paddr, flags, mid, j1);
            let e1 = s.entry(Slot::Frame(mid, j1));
            assert(s.step(s.root[j2 as int], 2, other) == Step::Descend(mid));
            if s.step(e1, 1, other) is Descend {
                let u0 = s.low(i2 as int, j1 as int);
                assert(s.low_branch(i2 as int, j1 as int));
                lemma_tree_low(s, i2 as int, j1 as int);
                lemma_map1_entry_kept(s, vaddr, paddr, flags, u0, j0);
            }
        }
    }
}

/// A request to map the page of `vaddr` at `level` to the page at `paddr`.
pub struct LevelRequest {
    pub vaddr: u64,
    pub paddr: u64,
    pub flags: i64,
    pub level: int,
}

impl Tables {
    /// No leaf stands above `level` on the way to `vaddr`: the page is not
    /// part of a larger page.
    pub open spec fn clear_above(self, vaddr: u64, level: int) -> bool {
        level >= 2 || (!is_leaf(self.root[vpn(vaddr, 2) as int]) && (level >= 1 || (is_branch(
            self.root[vpn(vaddr, 2) as int],
        ) ==> !is_leaf(self.mid_entry(vpn(vaddr, 2) as int, vpn(vaddr, 1) as int)))))
    }

    /// Whether a request can be served: its level is one of the three, its
    /// flags grant some access, its page is not part of a larger page, and
    /// the mapping succeeds.
    pub open spec fn serves(self, request: LevelRequest) -> bool {
        &&& 0 <= request.level <= 2
        &&& request.flags & 14 != 0
        &&& self.clear_above(request.vaddr, request.level)
        &&& self.map(request.vaddr, request.paddr, request.flags, request.level).1 is Ok
    }
}

/// The state after the requests were served in turn; `None` if one of them
/// could not be.
pub open spec fn map_each(s: Tables, requests: Seq<LevelRequest>) -> Option<Tables>
    decreases requests.len(),
{
    if requests.len() == 0 {
        Some(s)
    } else if s.serves(requests[0]) {
        map_each(
            s.map(requests[0].vaddr, requests[0].paddr, requests[0].flags, requests[0].level).0,
            requests.drop_first(),
        )
    } else {
        None
    }
}

/// Whether `addr` lies in the page of `vaddr` at `level`: whether the two
/// select the same entry at `level` and at every level above.
pub open spec fn in_page(addr: u64, vaddr: u64, level: int) -> bool {
    vpn(addr, 2) == vpn(vaddr, 2) && (level >= 2 || (vpn(addr, 1) == vpn(vaddr, 1) && (level >= 1
        || vpn(addr, 0) == vpn(vaddr, 0))))
}

/// One mapping at any level keeps the tables a tree, and leaves an address
/// outside its page that translated to nothing translating to nothing.
pub proof fn lemma_serve_keeps_unmapped(s: Tables, request: LevelRequest, other: u64)
    requires
        s.shaped(),
        s.tree(),
        s.serves(request),
        s.translate(other) is None,
        !in_page(other, request.vaddr, request.level),
    ensures
        s.map(request.vaddr, request.paddr, request.flags, request.level).0.shaped(),
        s.map(request.vaddr, request.paddr, request.flags, request.level).0.tree(),
        s.map(request.vaddr, request.paddr, request.flags, request.level).0.translate(
            other,
        ) is None,
{
    if request.level == 0 {
        lemma_map_keeps_tree(s, request.vaddr, request.paddr, request.flags);
        lemma_map_keeps_unmapped(s, request.vaddr, request.paddr, request.flags, other);
    } else if request.level == 1 {
        lemma_map1_keeps_tree(s, request.vaddr, request.paddr, request.flags);
        lemma_map1_keeps_unmapped(s, request.vaddr, request.paddr, request.flags, other);
    } else {
        lemma_map2_keeps_tree(s, request.vaddr, request.paddr, request.flags);
        lemma_map2_keeps_others(s, request.vaddr, request.paddr, request.flags, other);
    }
}

/// Any number of mappings, at any levels, leave an address that lies in
/// none of their pages and translated to nothing translating to nothing,
/// and leave the tables a tree.
pub proof fn lemma_map_each_keeps_unmapped(s: Tables, requests: Seq<LevelRequest>, other: u64)
    requires
        s.shaped(),
        s.tree(),
        s.translate(other) is None,
        map_each(s, requests) is Some,
        forall|k: int|
            0 <= k < requests.len() ==> !in_page(
                other,
                (#[trigger] requests[k]).vaddr,
                requests[k].level,
            ),
    ensures
        map_each(s, requests).unwrap().shaped(),
        map_each(s, requests).unwrap().tree(),
        map_each(s, requests).unwrap().translate(other) is None,
    decreases requests.len(),
{
    if requests.len() > 0 {
        let first = requests[0];
        let next = s.map(first.vaddr, first.paddr, first.flags, first.level).0;
        assert(!in_page(other, requests[0].vaddr, requests[0].level));
        lemma_serve_keeps_unmapped(s, first, other);
        let rest = requests.drop_first();
        assert forall|k: int| 0 <= k < rest.len() implies !in_page(
            other,
            (#[trigger] rest[k]).vaddr,
            rest[k].level,
        ) by {
            assert(rest[k] == requests[k + 1]);
        }
        lemma_map_each_keeps_unmapped(next, rest, other);
    }
}

/// Unmapped miss, with pages of every size: under tables that were built
/// from an empty root by mappings at any levels, none of them made inside a
/// page that was mapped at a higher level, an address that lies in no page
/// that was passed to `map` translates to nothing.
pub proof fn lemma_never_mapped_at_any_level(
    s: Tables,
    requests: Seq<LevelRequest>,
    other: u64,
)
    requires
        s.shaped(),
        forall|i: int| 0 <= i < 512 ==> s.root[i] == 0,
        map_each(s, requests) is Some,
        forall|k: int|
            0 <= k < requests.len() ==> !in_page(
                other,
                (#[trigger] requests[k]).vaddr,
                requests[k].level,
            ),
    ensures
        map_each(s, requests).unwrap().translate(other) is None,
{
    lemma_entry_bits(0, 0, 0);
    lemma_empty_root_maps_nothing(s, other);
    assert(s.tree()) by {
        reveal(Tables::tree);
        assert forall|i: int| !s.mid_branch(i) by {}
    }
    lemma_map_each_keeps_unmapped(s, requests, other);
}

} // verus!
