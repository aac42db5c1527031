//! The in-band block header: one machine word holding two half-word sizes.

use vstd::prelude::*;
use vstd::std_specs::cmp::{PartialEqSpecImpl, PartialOrdSpecImpl};
use vstd::std_specs::convert::FromSpecImpl;
use std::cmp::Ordering;
use crate::types::{HalfWord, Word, HALF_WORD_MAX};

verus! {

/// Number of bits by which the predecessor size is shifted inside the word.
pub const SHIFT: Word = 32;

/// Mask selecting the predecessor size (the high half-word).
pub const PRED_FLAG: Word = 0xFFFF_FFFF_0000_0000;

/// Mask selecting the block's own size (the low half-word).
pub const SIZE_FLAG: Word = 0x0000_0000_FFFF_FFFF;

/// The own size stored in a raw header word: its low half.
#[verifier::opaque]
pub open spec fn word_size(word: Word) -> nat {
    (word as nat) % 0x1_0000_0000
}

/// The predecessor size stored in a raw header word: its high half.
#[verifier::opaque]
pub open spec fn word_pred_size(word: Word) -> nat {
    (word as nat) / 0x1_0000_0000
}

/// The raw word that stores `pred_size` in its high half and `size` in its
/// low half.
pub open spec fn pack(pred_size: nat, size: nat) -> nat {
    pred_size * 0x1_0000_0000 + size
}

/// A word is determined by the two sizes it stores.
pub proof fn lemma_pack_unique(word: Word, pred_size: nat, size: nat)
    requires
        word_size(word) == size,
        word_pred_size(word) == pred_size,
    ensures
        word == pack(pred_size, size),
{
    reveal(word_size);
    reveal(word_pred_size);
}

/// A packed word stores the two sizes it was made of.
pub proof fn lemma_pack_sizes(pred_size: nat, size: nat)
    requires
        pred_size <= HALF_WORD_MAX,
        size <= HALF_WORD_MAX,
    ensures
        pack(pred_size, size) <= Word::MAX,
        word_size(pack(pred_size, size) as Word) == size,
        word_pred_size(pack(pred_size, size) as Word) == pred_size,
{
    reveal(word_size);
    reveal(word_pred_size);
}

/// No header stores a size that is larger than a half-word.
pub proof fn lemma_sizes_fit(word: Word)
    ensures
        word_size(word) <= HALF_WORD_MAX,
        word_pred_size(word) <= HALF_WORD_MAX,
{
    reveal(word_size);
    reveal(word_pred_size);
}

/// The first word of a block. Holds the size of the preceding block in its
/// high half-word and the block's own size in its low half-word, both counted
/// in words and including the header itself.
#[derive(Copy, Clone, Debug)]
pub struct BlockHeader(pub Word);

impl BlockHeader {
    /// The block's own size, as a mathematical value.
    pub open spec fn spec_block_size(self) -> nat {
        word_size(self.0)
    }

    /// The size of the preceding block, as a mathematical value.
    pub open spec fn spec_pred_block_size(self) -> nat {
        word_pred_size(self.0)
    }

    pub fn new(pred_size: HalfWord, size: HalfWord) -> (header: BlockHeader)
        ensures
            header.0 == pack(pred_size as nat, size as nat),
            header.spec_block_size() == size,
            header.spec_pred_block_size() == pred_size,
    {
        proof {
            reveal(word_size);
            reveal(word_pred_size);
        }
        let pred: Word = (pred_size as Word) << SHIFT;
        let own: Word = size as Word;
        let word: Word = pred | own;
        assert(word == (pred_size as u64) * 0x1_0000_0000 + (size as u64)
            && word % 0x1_0000_0000 == size as u64
            && word / 0x1_0000_0000 == pred_size as u64) by (bit_vector)
            requires
                word == ((pred_size as u64) << 32) | (size as u64),
        ;
        BlockHeader(word)
    }

    pub fn block_size(self) -> (size: HalfWord)
        ensures
            size == self.spec_block_size(),
    {
        let word: Word = self.0;
        proof {
            reveal(word_size);
        }
        assert((word & 0xFFFF_FFFF) == word % 0x1_0000_0000) by (bit_vector);
        (self.0 & SIZE_FLAG) as HalfWord
    }

    pub fn pred_block_size(self) -> (size: HalfWord)
        ensures
            size == self.spec_pred_block_size(),
    {
        let word: Word = self.0;
        proof {
            reveal(word_pred_size);
        }
        assert((word >> 32) == word / 0x1_0000_0000) by (bit_vector);
        (self.0 >> SHIFT) as HalfWord
    }

    /// Grows the block's own size by `value`, keeping the predecessor size.
    pub fn inc_size(&mut self, value: HalfWord)
        requires
            old(self).spec_block_size() + value <= HALF_WORD_MAX,
        ensures
            final(self).spec_block_size() == old(self).spec_block_size() + value,
            final(self).spec_pred_block_size() == old(self).spec_pred_block_size(),
    {
        let size: HalfWord = self.block_size() + value;
        self.set_size(size);
    }

    /// Replaces the block's own size, keeping the predecessor size.
    pub fn set_size(&mut self, value: HalfWord)
        ensures
            final(self).spec_block_size() == value,
            final(self).spec_pred_block_size() == old(self).spec_pred_block_size(),
    {
        let word: Word = self.0;
        let kept: Word = word & PRED_FLAG;
        proof {
            reveal(word_size);
            reveal(word_pred_size);
        }
        assert(kept + (value as u64) <= 0xFFFF_FFFF_FFFF_FFFF
            && (kept + (value as u64)) % 0x1_0000_0000 == value as u64
            && (kept + (value as u64)) / 0x1_0000_0000 == word / 0x1_0000_0000) by (bit_vector)
            requires
                kept == word & 0xFFFF_FFFF_0000_0000,
        ;
        self.0 = kept + value as Word;
    }

    /// Replaces the predecessor size, keeping the block's own size.
    pub fn set_pred_size(&mut self, value: HalfWord)
        ensures
            final(self).spec_pred_block_size() == value,
            final(self).spec_block_size() == old(self).spec_block_size(),
    {
        let word: Word = self.0;
        proof {
            reveal(word_size);
            reveal(word_pred_size);
        }
        let size: Word = (value as Word) << SHIFT;
        let cleared: Word = word & SIZE_FLAG;
        assert((size | cleared) / 0x1_0000_0000 == value as u64
            && (size | cleared) % 0x1_0000_0000 == word % 0x1_0000_0000) by (bit_vector)
            requires
                size == (value as u64) << 32,
                cleared == word & 0x0000_0000_FFFF_FFFF,
        ;
        self.0 = size | cleared;
    }
}

/// The raw word of a header: the predecessor size in its high half, the own
/// size in its low half.
impl From<BlockHeader> for Word {
    fn from(header: BlockHeader) -> (word: Word) {
        header.0
    }
}

impl FromSpecImpl<BlockHeader> for Word {
    open spec fn obeys_from_spec() -> bool {
        true
    }

    open spec fn from_spec(header: BlockHeader) -> Word {
        header.0
    }
}

/// Headers are equal when they hold the same own size, whatever they say of
/// the predecessor.
impl PartialEq for BlockHeader {
    fn eq(&self, other: &BlockHeader) -> (equal: bool) {
        self.block_size() == other.block_size()
    }
}

impl PartialEqSpecImpl for BlockHeader {
    open spec fn obeys_eq_spec() -> bool {
        true
    }

    open spec fn eq_spec(&self, other: &BlockHeader) -> bool {
        self.spec_block_size() == other.spec_block_size()
    }
}

impl Eq for BlockHeader {

}

/// Headers are ordered by their own size.
impl PartialOrd for BlockHeader {
    fn partial_cmp(&self, other: &BlockHeader) -> (order: Option<Ordering>) {
        let mine = self.block_size();
        let theirs = other.block_size();
        if mine < theirs {
            Some(Ordering::Less)
        } else if mine == theirs {
            Some(Ordering::Equal)
        } else {
            Some(Ordering::Greater)
        }
    }
}

impl PartialOrdSpecImpl for BlockHeader {
    open spec fn obeys_partial_cmp_spec() -> bool {
        true
    }

    open spec fn partial_cmp_spec(&self, other: &BlockHeader) -> Option<Ordering> {
        if self.spec_block_size() < other.spec_block_size() {
            Some(Ordering::Less)
        } else if self.spec_block_size() == other.spec_block_size() {
            Some(Ordering::Equal)
        } else {
            Some(Ordering::Greater)
        }
    }
}

} // verus!
