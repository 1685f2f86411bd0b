//! Laws of mapping whole ranges, and of what mappings leave as it is.

use crate::paging_sv39::laws::{
    lemma_flat_no_leaf_above, lemma_map_keeps_flat, lemma_map_keeps_others,
    lemma_map_keeps_tree, lemma_map_translate, same_page,
};
use crate::paging_sv39::laws_levels::{
    lemma_map1_keeps_tree, lemma_map2_keeps_tree, map_each, LevelRequest,
};
use crate::paging_sv39::mapping::{id_map, Tables};
use vstd::prelude::*;

verus! {

/// Any number of mappings, at any levels, leave the tables a tree: `unmap`
/// then gives back exactly the frames of the tables below the root.
pub proof fn lemma_map_each_keeps_tree(s: Tables, requests: Seq<LevelRequest>)
    requires
        s.shaped(),
        s.tree(),
        map_each(s, requests) is Some,
    ensures
        map_each(s, requests).unwrap().shaped(),
        map_each(s, requests).unwrap().tree(),
    decreases requests.len(),
{
    if requests.len() > 0 {
        let first = requests[0];
        let next = s.map(first.vaddr, first.paddr, first.flags, first.level).0;
        if first.level == 0 {
            lemma_map_keeps_tree(s, first.vaddr, first.paddr, first.flags);
        } else if first.level == 1 {
            lemma_map1_keeps_tree(s, first.vaddr, first.paddr, first.flags);
        } else {
            lemma_map2_keeps_tree(s, first.vaddr, first.paddr, first.flags);
        }
        lemma_map_each_keeps_tree(next, requests.drop_first());
    }
}

/// Below 2^39, addresses of different pages select different entries.
pub proof fn lemma_pages_differ(a: u64, b: u64)
    requires
        a < 0x80_0000_0000,
        b < 0x80_0000_0000,
        a / 4096 != b / 4096,
    ensures
        !same_page(a, b),
{
    assert(!(((a >> 30) & 0x1ff) == ((b >> 30) & 0x1ff) && ((a >> 21) & 0x1ff) == ((b >> 21)
        & 0x1ff) && ((a >> 12) & 0x1ff) == ((b >> 12) & 0x1ff))) by (bit_vector)
        requires
            a < 0x80_0000_0000,
            b < 0x80_0000_0000,
            a / 4096 != b / 4096,
    ;
}

/// Identity mapping a range below 2^39 keeps the tables a tree without
/// leaves above the last level, and leaves the translation of every address
/// outside the range as it is.
pub proof fn lemma_id_map_keeps_others(s: Tables, memaddr: u64, pages: nat, bits: i64, other: u64)
    requires
        s.shaped(),
        s.tree(),
        s.flat(),
        memaddr % 4096 == 0,
        memaddr + pages * 4096 <= 0x80_0000_0000,
        id_map(s, memaddr, pages, bits).1 is Ok,
        other < 0x80_0000_0000,
        !(memaddr <= other < memaddr + pages * 4096),
    ensures
        id_map(s, memaddr, pages, bits).0.shaped(),
        id_map(s, memaddr, pages, bits).0.tree(),
        id_map(s, memaddr, pages, bits).0.flat(),
        id_map(s, memaddr, pages, bits).0.translate(other) == s.translate(other),
    decreases pages,
{
    if pages > 0 {
        let next = s.map(memaddr, memaddr, bits, 0).0;
        assert(s.map(memaddr, memaddr, bits, 0).1 is Ok);
        lemma_flat_no_leaf_above(s, memaddr);
        lemma_map_keeps_tree(s, memaddr, memaddr, bits);
        lemma_map_keeps_flat(s, memaddr, memaddr, bits);
        lemma_pages_differ(memaddr, other);
        lemma_map_keeps_others(s, memaddr, memaddr, bits, other);
        lemma_id_map_keeps_others(next, (memaddr + 4096) as u64, (pages - 1) as nat, bits, other);
    }
}

/// Identity mapping: after a range below 2^39 was identity mapped, every
/// address of the range translates to itself.
pub proof fn lemma_id_map_translates(s: Tables, memaddr: u64, pages: nat, bits: i64, v: u64)
    requires
        s.shaped(),
        s.tree(),
        s.flat(),
        memaddr % 4096 == 0,
        memaddr + pages * 4096 <= 0x80_0000_0000,
        bits & 14 != 0,
        bits & !0xffi64 == 0,
        id_map(s, memaddr, pages, bits).1 is Ok,
        memaddr <= v < memaddr + pages * 4096,
    ensures
        id_map(s, memaddr, pages, bits).0.translate(v) == Some(v),
    decreases pages,
{
    let next = s.map(memaddr, memaddr, bits, 0).0;
    assert(s.map(memaddr, memaddr, bits, 0).1 is Ok);
    lemma_flat_no_leaf_above(s, memaddr);
    lemma_map_keeps_tree(s, memaddr, memaddr, bits);
    lemma_map_keeps_flat(s, memaddr, memaddr, bits);
    if v < memaddr + 4096 {
        lemma_map_translate(s, memaddr, memaddr, bits, (v - memaddr) as u64);
        lemma_id_map_keeps_others(next, (memaddr + 4096) as u64, (pages - 1) as nat, bits, v);
    } else {
        lemma_id_map_translates(next, (memaddr + 4096) as u64, (pages - 1) as nat, bits, v);
    }
}

} // verus!
