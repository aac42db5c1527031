//! The backing region of a heap: a fixed number of machine words.
//!
//! Every location inside a region is named by its word index, counted from
//! the region's first word.

use vstd::prelude::*;
use crate::types::Word;
use crate::block::header::{word_size, word_pred_size};

verus! {

/// A contiguous run of machine words that a heap carves into blocks.
pub struct Region {
    words: Vec<Word>,
}

impl View for Region {
    type V = Seq<Word>;

    closed spec fn view(&self) -> Seq<Word> {
        self.words@
    }
}

/// The own size that the header word at `pos` of `words` stores.
pub open spec fn size_at(words: Seq<Word>, pos: int) -> nat {
    word_size(words[pos])
}

/// The predecessor size that the header word at `pos` of `words` stores.
pub open spec fn pred_size_at(words: Seq<Word>, pos: int) -> nat {
    word_pred_size(words[pos])
}

impl Region {
    /// A region of `len` words, all zero.
    pub fn new(len: usize) -> (region: Region)
        ensures
            region@.len() == len,
            forall|i: int| 0 <= i < len ==> region@[i] == 0,
    {
        let words: Vec<Word> = vec![0u64; len];
        Region { words }
    }

    /// A region never holds more words than an index can name.
    pub proof fn lemma_len_fits(&self)
        ensures
            self@.len() <= usize::MAX,
    {
        vstd::std_specs::vec::axiom_spec_len(&self.words);
    }

    /// The number of words in the region.
    pub fn len(&self) -> (len: usize)
        ensures
            len == self@.len(),
    {
        self.words.len()
    }

    /// The word stored at index `pos`.
    pub fn read(&self, pos: usize) -> (word: Word)
        requires
            pos < self@.len(),
        ensures
            word == self@[pos as int],
    {
        self.words[pos]
    }

    /// Stores `value` at index `pos`, leaving every other word as it was.
    pub fn write(&mut self, pos: usize, value: Word)
        requires
            pos < old(self)@.len(),
        ensures
            final(self)@ == old(self)@.update(pos as int, value),
    {
        self.words[pos] = value;
    }

    /// A mutable reference to the word at index `pos`. Whatever is stored
    /// through it lands at `pos`, and nowhere else.
    pub fn word_mut(&mut self, pos: usize) -> (word: &mut Word)
        requires
            pos < old(self)@.len(),
        ensures
            *word == old(self)@[pos as int],
            final(self)@ == old(self)@.update(pos as int, *final(word)),
    {
        &mut self.words[pos]
    }
}

} // verus!
