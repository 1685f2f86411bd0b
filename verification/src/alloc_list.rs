//! The one-word header that starts every heap block.

use vstd::prelude::*;

verus! {

/// The most significant bit of a header: the block is taken.
pub const TAKEN_BIT: u64 = 0x8000_0000_0000_0000;

/// The remaining bits of a header: the block's size in bytes, header included.
pub const SIZE_MASK: u64 = 0x7fff_ffff_ffff_ffff;

/// Flag bits of a block header.
#[derive(Debug, Clone, Copy)]
pub enum AllocListFlags {
    Taken,
}

impl AllocListFlags {
    pub open spec fn spec_bits(self) -> u64 {
        TAKEN_BIT
    }

    pub fn bits(self) -> (r: u64)
        ensures
            r == self.spec_bits(),
    {
        match self {
            AllocListFlags::Taken => TAKEN_BIT,
        }
    }
}

/// Whether a header word has the taken bit set.
pub open spec fn word_taken(w: u64) -> bool {
    w & TAKEN_BIT != 0
}

/// The size field of a header word.
pub open spec fn word_size(w: u64) -> u64 {
    w & SIZE_MASK
}

/// The header word of a block of `size` bytes.
pub open spec fn header_word(size: u64, taken: bool) -> u64 {
    (size & SIZE_MASK) | if taken {
        TAKEN_BIT
    } else {
        0
    }
}

/// How the two fields of a header word are read and written with masks.
pub proof fn lemma_header_bits(w: u64, s: u64)
    ensures
        !TAKEN_BIT == SIZE_MASK,
        word_size(w) <= SIZE_MASK,
        w == header_word(word_size(w), word_taken(w)),
        w | TAKEN_BIT == header_word(word_size(w), true),
        w & !TAKEN_BIT == header_word(word_size(w), false),
        word_size(header_word(s, true)) == s & SIZE_MASK,
        word_size(header_word(s, false)) == s & SIZE_MASK,
        word_taken(header_word(s, true)),
        !word_taken(header_word(s, false)),
        (s & !TAKEN_BIT) | TAKEN_BIT == header_word(s, true),
        s & !TAKEN_BIT == header_word(s, false),
        s <= SIZE_MASK ==> s & SIZE_MASK == s,
        word_size(0) == 0 && !word_taken(0),
{
    assert(!TAKEN_BIT == SIZE_MASK && (w & SIZE_MASK) <= SIZE_MASK && w == ((w & SIZE_MASK)
        & SIZE_MASK) | (if w & TAKEN_BIT != 0 {
        TAKEN_BIT
    } else {
        0
    }) && w | TAKEN_BIT == ((w & SIZE_MASK) & SIZE_MASK) | TAKEN_BIT && w & !TAKEN_BIT == ((w
        & SIZE_MASK) & SIZE_MASK) | 0 && ((s & SIZE_MASK) | TAKEN_BIT) & SIZE_MASK == s & SIZE_MASK
        && ((s & SIZE_MASK) | 0) & SIZE_MASK == s & SIZE_MASK && ((s & SIZE_MASK) | TAKEN_BIT)
        & TAKEN_BIT != 0 && ((s & SIZE_MASK) | 0) & TAKEN_BIT == 0 && (s & !TAKEN_BIT) | TAKEN_BIT
        == (s & SIZE_MASK) | TAKEN_BIT && s & !TAKEN_BIT == (s & SIZE_MASK) | 0 && (s <= SIZE_MASK
        ==> s & SIZE_MASK == s) && 0u64 & SIZE_MASK == 0 && 0u64 & TAKEN_BIT == 0) by (bit_vector);
}

/// A node of the allocation list. The list has no pointers: the node after
/// this one starts `size()` bytes after the start of this one.
#[derive(Debug, Clone, Copy)]
pub struct AllocList {
    flags_size: u64,
}

impl AllocList {
    /// The header as the word that is stored in memory.
    pub closed spec fn spec_word(&self) -> u64 {
        self.flags_size
    }

    /// The block's size in bytes, header included.
    pub open spec fn spec_size(&self) -> u64 {
        word_size(self.spec_word())
    }

    /// Whether the block is taken.
    pub open spec fn taken(&self) -> bool {
        word_taken(self.spec_word())
    }

    /// The header that is stored as `word`.
    pub fn from_word(word: u64) -> (r: Self)
        ensures
            r.spec_word() == word,
    {
        AllocList { flags_size: word }
    }

    /// The word to store for this header.
    pub fn word(&self) -> (r: u64)
        ensures
            r == self.spec_word(),
    {
        self.flags_size
    }

    pub fn is_taken(&self) -> (r: bool)
        ensures
            r == self.taken(),
    {
        self.flags_size & AllocListFlags::Taken.bits() != 0
    }

    pub fn is_free(&self) -> (r: bool)
        ensures
            r == !self.taken(),
    {
        !self.is_taken()
    }

    pub fn set_taken(&mut self)
        ensures
            final(self).spec_word() == header_word(old(self).spec_size(), true),
            final(self).taken(),
            final(self).spec_size() == old(self).spec_size(),
    {
        proof {
            lemma_header_bits(self.flags_size, self.spec_size());
        }
        self.flags_size = self.flags_size | AllocListFlags::Taken.bits();
    }

    pub fn set_free(&mut self)
        ensures
            final(self).spec_word() == header_word(old(self).spec_size(), false),
            !final(self).taken(),
            final(self).spec_size() == old(self).spec_size(),
    {
        proof {
            lemma_header_bits(self.flags_size, self.spec_size());
        }
        self.flags_size = self.flags_size & !AllocListFlags::Taken.bits();
    }

    pub fn size(&self) -> (r: u64)
        ensures
            r == self.spec_size(),
            r <= SIZE_MASK,
    {
        proof {
            lemma_header_bits(self.flags_size, 0);
        }
        self.flags_size & !AllocListFlags::Taken.bits()
    }

    /// Sets the size and keeps the taken bit. A size that does not fit the
    /// size field loses its most significant bit.
    pub fn set_size(&mut self, size: u64)
        ensures
            final(self).spec_word() == header_word(size, old(self).taken()),
            final(self).taken() == old(self).taken(),
            final(self).spec_size() == size & SIZE_MASK,
            size <= SIZE_MASK ==> final(self).spec_size() == size,
    {
        proof {
            lemma_header_bits(self.flags_size, size);
        }
        let k = self.is_taken();
        self.flags_size = size & !AllocListFlags::Taken.bits();
        if k {
            self.flags_size = self.flags_size | AllocListFlags::Taken.bits();
        }
    }
}

} // verus!
