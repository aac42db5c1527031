//! Blocks: handles over header locations inside a region.
//!
//! A block owns `size` contiguous words of a region. The first is its header,
//! the rest is the payload. A handle is the index of the header word; every
//! operation that looks at or changes the block takes the region it lives in.

use vstd::prelude::*;
use crate::types::{HalfWord, Word};
use crate::region::{Region, size_at, pred_size_at};
use self::header::{BlockHeader, pack};

pub mod header;
pub mod set;


verus! {

/// A handle over the block whose header is the word at index `pos`.
#[derive(Copy, Clone, Debug, PartialOrd, Ord, PartialEq, Eq, Structural)]
pub struct Block {
    pub pos: usize,
}

impl Block {
    /// Whether the block, header and payload, lies inside `words`.
    pub open spec fn inside(self, words: Seq<Word>) -> bool {
        &&& self.pos < words.len()
        &&& self.pos + size_at(words, self.pos as int) <= words.len()
    }

    /// Writes a fresh header at index `pos` and hands out the block there.
    pub fn new(region: &mut Region, pos: usize, size: HalfWord, pred_size: HalfWord) -> (block:
        Block)
        requires
            pos < old(region)@.len(),
        ensures
            block.pos == pos,
            final(region)@ == old(region)@.update(
                pos as int,
                pack(pred_size as nat, size as nat) as Word,
            ),
            size_at(final(region)@, pos as int) == size,
            pred_size_at(final(region)@, pos as int) == pred_size,
    {
        let header = BlockHeader::new(pred_size, size);
        region.write(pos, Word::from(header));
        Block { pos }
    }

    /// The header of the block, as stored in `region`.
    pub fn header(self, region: &Region) -> (header: BlockHeader)
        requires
            self.pos < region@.len(),
        ensures
            header.0 == region@[self.pos as int],
    {
        BlockHeader(region.read(self.pos))
    }

    /// Writes `value` to the payload word number `offset`.
    pub fn write_at(&mut self, region: &mut Region, offset: HalfWord, value: Word)
        requires
            old(self).inside(old(region)@),
            offset + 1 < size_at(old(region)@, old(self).pos as int),
        ensures
            *final(self) == *old(self),
            final(region)@ == old(region)@.update(old(self).pos + 1 + offset, value),
    {
        proof {
            region.lemma_len_fits();
        }
        region.write(self.pos + 1 + offset as usize, value);
    }

    /// Grows the block by `value` words.
    pub fn inc_size(&mut self, region: &mut Region, value: HalfWord)
        requires
            old(self).pos < old(region)@.len(),
            size_at(old(region)@, old(self).pos as int) + value <= HalfWord::MAX,
        ensures
            *final(self) == *old(self),
            final(region)@ == old(region)@.update(
                old(self).pos as int,
                pack(
                    pred_size_at(old(region)@, old(self).pos as int),
                    size_at(old(region)@, old(self).pos as int) + value as nat,
                ) as Word,
            ),
            size_at(final(region)@, old(self).pos as int) == size_at(
                old(region)@,
                old(self).pos as int,
            ) + value,
            pred_size_at(final(region)@, old(self).pos as int) == pred_size_at(
                old(region)@,
                old(self).pos as int,
            ),
    {
        let mut header = self.header(region);
        header.inc_size(value);
        proof {
            header::lemma_pack_unique(
                header.0,
                pred_size_at(region@, self.pos as int),
                size_at(region@, self.pos as int) + value as nat,
            );
        }
        region.write(self.pos, header.0);
    }

    /// Sets the block's own size to `value` words.
    pub fn set_size(&mut self, region: &mut Region, value: HalfWord)
        requires
            old(self).pos < old(region)@.len(),
        ensures
            *final(self) == *old(self),
            final(region)@ == old(region)@.update(
                old(self).pos as int,
                pack(pred_size_at(old(region)@, old(self).pos as int), value as nat) as Word,
            ),
            size_at(final(region)@, old(self).pos as int) == value,
            pred_size_at(final(region)@, old(self).pos as int) == pred_size_at(
                old(region)@,
                old(self).pos as int,
            ),
    {
        let mut header = self.header(region);
        header.set_size(value);
        proof {
            header::lemma_pack_unique(
                header.0,
                pred_size_at(region@, self.pos as int),
                value as nat,
            );
        }
        region.write(self.pos, header.0);
    }

    /// Records `value` as the size of the block that precedes this one.
    pub fn set_pred_size(&mut self, region: &mut Region, value: HalfWord)
        requires
            old(self).pos < old(region)@.len(),
        ensures
            *final(self) == *old(self),
            final(region)@ == old(region)@.update(
                old(self).pos as int,
                pack(value as nat, size_at(old(region)@, old(self).pos as int)) as Word,
            ),
            pred_size_at(final(region)@, old(self).pos as int) == value,
            size_at(final(region)@, old(self).pos as int) == size_at(
                old(region)@,
                old(self).pos as int,
            ),
    {
        let mut header = self.header(region);
        header.set_pred_size(value);
        proof {
            header::lemma_pack_unique(
                header.0,
                value as nat,
                size_at(region@, self.pos as int),
            );
        }
        region.write(self.pos, header.0);
    }

    /// The block's size in words, header included.
    pub fn size(self, region: &Region) -> (size: HalfWord)
        requires
            self.pos < region@.len(),
        ensures
            size == size_at(region@, self.pos as int),
    {
        self.header(region).block_size()
    }

    /// The size in words of the block that precedes this one, or 0 for the
    /// first block of a region.
    pub fn pred_size(self, region: &Region) -> (size: HalfWord)
        requires
            self.pos < region@.len(),
        ensures
            size == pred_size_at(region@, self.pos as int),
    {
        self.header(region).pred_block_size()
    }

    /// The block that starts where this one ends, unless that is at or past
    /// `heap_end`.
    pub fn next_block(self, region: &Region, heap_end: usize) -> (next: Option<Block>)
        requires
            self.pos < region@.len(),
        ensures
            next == if self.pos + size_at(region@, self.pos as int) < heap_end {
                Some(Block { pos: (self.pos + size_at(region@, self.pos as int)) as usize })
            } else {
                None
            },
    {
        let size = self.size(region);
        match self.pos.checked_add(size as usize) {
            Some(next_pos) => {
                if next_pos >= heap_end {
                    None
                } else {
                    Some(Block { pos: next_pos })
                }
            },
            None => None,
        }
    }

    /// The block that ends where this one starts. There is none for a block
    /// whose predecessor size is 0, nor where the predecessor would start
    /// before `heap_start`.
    pub fn pred_block(self, region: &Region, heap_start: usize) -> (pred: Option<Block>)
        requires
            self.pos < region@.len(),
        ensures
            pred == if pred_size_at(region@, self.pos as int) == 0 || self.pos - pred_size_at(
                region@,
                self.pos as int,
            ) < heap_start {
                None
            } else {
                Some(Block { pos: (self.pos - pred_size_at(region@, self.pos as int)) as usize })
            },
    {
        let pred_size = self.pred_size(region);
        if pred_size == 0 {
            return None;
        }
        if pred_size as usize > self.pos {
            return None;
        }
        let pred_pos: usize = self.pos - pred_size as usize;
        if pred_pos < heap_start {
            return None;
        }
        Some(Block { pos: pred_pos })
    }

    /// Splits the block in two. The low part keeps the first `size` words and
    /// the block's predecessor size; the high part gets a new header right
    /// behind it and the words that are left. The block that follows, if
    /// there is one before `heap_end`, learns the size of its new predecessor.
    pub fn split_after(self, region: &mut Region, size: HalfWord, heap_end: usize) -> (parts: (
        Block,
        Block,
    ))
        requires
            self.inside(old(region)@),
            heap_end <= old(region)@.len(),
            1 <= size < size_at(old(region)@, self.pos as int),
        ensures
            parts.0 == self,
            parts.1 == (Block { pos: (self.pos + size) as usize }),
            final(region)@ == split_words(old(region)@, self.pos as int, size as nat, heap_end as int),
    {
        let current_size = self.size(region);
        let pred_size = self.pred_size(region);
        let second_size: HalfWord = current_size - size;
        let ghost before = region@;
        proof {
            region.lemma_len_fits();
        }
        let second = Block::new(region, self.pos + size as usize, second_size, size);
        let first = Block::new(region, self.pos, size, pred_size);
        if self.pos + (current_size as usize) < heap_end {
            let mut after = Block { pos: self.pos + current_size as usize };
            after.set_pred_size(region, second_size);
        }
        proof {
            assert(region@ =~= split_words(before, self.pos as int, size as nat, heap_end as int));
        }
        (first, second)
    }
}

/// The words of a region after the block at `pos` has been split behind its
/// first `size` words.
pub open spec fn split_words(words: Seq<Word>, pos: int, size: nat, heap_end: int) -> Seq<Word> {
    let old_size = size_at(words, pos);
    let rest = (old_size - size) as nat;
    let halves = words.update(pos + size, pack(size, rest) as Word).update(
        pos,
        pack(pred_size_at(words, pos), size) as Word,
    );
    if pos + old_size < heap_end {
        halves.update(pos + old_size, pack(rest, size_at(words, pos + old_size)) as Word)
    } else {
        halves
    }
}

} // verus!
