//! The raw heap: a region, and the sets of its free and of its used blocks.
//!
//! Allocation takes the smallest free block that is large enough and splits
//! off what is not needed. A release merges the block with its free
//! neighbours, so that no two free blocks ever lie side by side.

use vstd::prelude::*;
use crate::types::{HalfWord, Word, HALF_WORD_MAX, WORD_SIZE};
use crate::address::Address;
use crate::block::Block;
use crate::block::header::{pack, lemma_pack_sizes};
use crate::block::set::{BlockSet, ascending};
use crate::layout::HeapView;
use crate::region::{Region, size_at};

verus! {

/// A region of words, divided without gaps into free and used blocks.
pub struct Heap {
    size: usize,
    data: Region,
    free_blocks: BlockSet,
    used_blocks: BlockSet,
}

impl View for Heap {
    type V = HeapView;

    closed spec fn view(&self) -> HeapView {
        HeapView { words: self.data@, free: self.free_blocks@, used: self.used_blocks@ }
    }
}

/// The positions of the blocks whose payloads start at `addresses`.
pub open spec fn heads(addresses: Seq<Address>) -> Seq<int> {
    Seq::new(addresses.len(), |i: int| addresses[i].ptr - 1)
}

/// The positions of a sequence of blocks.
pub open spec fn positions_of(blocks: Seq<Block>) -> Seq<int> {
    Seq::new(blocks.len(), |i: int| blocks[i].pos as int)
}

impl Heap {
    /// Whether the heap's bookkeeping is in order: it knows the size of its
    /// region, and both block sets are sorted by the sizes that the headers
    /// hold.
    pub closed spec fn ordered(&self) -> bool {
        &&& self.size == self.data@.len()
        &&& self.free_blocks.wf(self.data@)
        &&& self.used_blocks.wf(self.data@)
    }

    /// Whether the heap is well-formed.
    pub open spec fn wf(&self) -> bool {
        &&& self@.wf()
        &&& self.ordered()
    }

    /// A heap over a fresh region of `size` bytes, which is one free block.
    pub fn new(size: usize) -> (heap: Heap)
        requires
            WORD_SIZE <= size,
            size / WORD_SIZE <= HALF_WORD_MAX,
        ensures
            heap.wf(),
            heap@.size() == size / WORD_SIZE,
            heap@.free == set![0int],
            heap@.used == Set::<int>::empty(),
            heap@.block_size(0) == size / WORD_SIZE,
            heap@.words == Seq::new((size / WORD_SIZE) as nat, |i: int| 0u64).update(
                0,
                pack(0, (size / WORD_SIZE) as nat) as Word,
            ),
    {
        let words: usize = size / WORD_SIZE;
        let mut data = Region::new(words);
        let free_blocks = BlockSet::from_raw(&mut data, 0, words as HalfWord);
        let used_blocks = BlockSet::default();
        let heap = Heap { size: words, data, free_blocks, used_blocks };
        proof {
            lemma_pack_sizes(0, words as nat);
            assert(heap@.free =~= set![0int]) by {
                assert(seq![0int][0] == 0);
            }
            assert(heap@.used =~= Set::<int>::empty());
            assert(heap@.words =~= Seq::new(words as nat, |i: int| 0u64).update(
                0,
                pack(0, words as nat) as Word,
            ));
            assert(heap@.is_block(0));
            assert forall|p: int| #[trigger] heap@.is_block(p) implies heap@.block_ok(p) by {}
        }
        heap
    }

    /// The size of the region in words.
    pub fn size(&self) -> (size: usize)
        requires
            self.wf(),
        ensures
            size == self@.size(),
    {
        self.size
    }

    /// The index of the region's first word.
    pub fn start(&self) -> (start: usize)
        ensures
            start == 0,
    {
        0
    }

    /// The index right behind the region's last word.
    pub fn end(&self) -> (end: usize)
        requires
            self.wf(),
        ensures
            end == self@.size(),
    {
        self.size
    }

    /// The region, to read from.
    pub fn region(&self) -> (region: &Region)
        ensures
            region@ == self@.words,
    {
        &self.data
    }

    /// The number of used blocks.
    pub fn num_used_blocks(&self) -> (count: usize)
        requires
            self.wf(),
        ensures
            self@.used.finite(),
            count == self@.used.len(),
    {
        proof {
            self.used_blocks.lemma_distinct(self.data@);
        }
        self.used_blocks.len()
    }

    /// The number of free blocks.
    pub fn num_free_blocks(&self) -> (count: usize)
        requires
            self.wf(),
        ensures
            self@.free.finite(),
            count == self@.free.len(),
    {
        proof {
            self.free_blocks.lemma_distinct(self.data@);
        }
        self.free_blocks.len()
    }

    /// Whether `block` is one of the free blocks.
    pub fn is_free(&self, block: Block) -> (free: bool)
        requires
            self.wf(),
        ensures
            free == self@.free.contains(block.pos as int),
    {
        self.free_blocks.contains(&self.data, block)
    }

    /// Whether `block` is one of the used blocks.
    pub fn is_used(&self, block: Block) -> (used: bool)
        requires
            self.wf(),
        ensures
            used == self@.used.contains(block.pos as int),
    {
        self.used_blocks.contains(&self.data, block)
    }

    /// The used blocks, each once, smallest first.
    pub fn used(&self) -> (blocks: Vec<Block>)
        requires
            self.wf(),
        ensures
            positions_of(blocks@).no_duplicates(),
            positions_of(blocks@).to_set() == self@.used,
            ascending(self@.words, positions_of(blocks@)),
    {
        let blocks = self.used_blocks.iter();
        proof {
            self.used_blocks.lemma_distinct(self.data@);
            assert(positions_of(blocks@) =~= self.used_blocks.positions());
        }
        blocks
    }

    /// The word at `address`.
    pub fn read(&self, address: Address) -> (word: Word)
        requires
            self.wf(),
            address.ptr < self@.size(),
        ensures
            word == self@.words[address.ptr as int],
    {
        address.read(&self.data)
    }

    /// Stores `value` in the payload word at `address`. No header changes,
    /// and no other payload word.
    pub fn write(&mut self, address: Address, value: Word)
        requires
            old(self).wf(),
            old(self)@.owns(address.ptr as int),
        ensures
            final(self).wf(),
            final(self)@ == (HeapView {
                words: old(self)@.words.update(address.ptr as int, value),
                ..old(self)@
            }),
            final(self)@.same_blocks(old(self)@),
    {
        let ghost before = self@;
        proof {
            let b = choose|b: int|
                before.used.contains(b) && b < address.ptr < #[trigger] before.block_end(b);
            assert(before.is_block(b));
            assert(before.block_ok(b));
            before.lemma_payload_holds_no_block(b, address.ptr as int);
        }
        let mut at = address;
        at.write(&mut self.data, value);
        proof {
            let after = self@;
            before.lemma_headers_frame(after);
            self.free_blocks.lemma_frame(before.words, after.words);
            self.used_blocks.lemma_frame(before.words, after.words);
            assert(after.words =~= before.words.update(address.ptr as int, value));
        }
    }

    /// Stores `value` in the payload word number `offset` of the used block
    /// `block`. No header changes, and no other payload word.
    pub fn write_at(&mut self, block: Block, offset: HalfWord, value: Word)
        requires
            old(self).wf(),
            old(self)@.used.contains(block.pos as int),
            offset + 1 < old(self)@.block_size(block.pos as int),
        ensures
            final(self).wf(),
            final(self)@ == (HeapView {
                words: old(self)@.words.update(block.pos + 1 + offset, value),
                ..old(self)@
            }),
            final(self)@.same_blocks(old(self)@),
    {
        let ghost before = self@;
        let ghost at = block.pos + 1 + offset;
        proof {
            assert(before.is_block(block.pos as int));
            assert(before.block_ok(block.pos as int));
            before.lemma_payload_holds_no_block(block.pos as int, at);
        }
        let mut target = block;
        target.write_at(&mut self.data, offset, value);
        proof {
            let after = self@;
            before.lemma_headers_frame(after);
            self.free_blocks.lemma_frame(before.words, after.words);
            self.used_blocks.lemma_frame(before.words, after.words);
            assert(after.words =~= before.words.update(at, value));
        }
    }

    /// Takes a block with room for `size` payload words from the free blocks
    /// and makes it a used one. The block is the smallest free block that is
    /// large enough; where it has more than two words to spare, it is split
    /// and the rest stays free. There is no such block exactly when no free
    /// block has `size + 1` words, and then nothing changes.
    pub fn alloc_block(&mut self, size: HalfWord) -> (found: Option<Block>)
        requires
            old(self).wf(),
        ensures
            final(self).wf(),
            match found {
                Some(block) => {
                    &&& old(self)@.is_first_fit(block.pos as int, size as nat + 1)
                    &&& final(self)@ == old(self)@.after_alloc(block.pos as int, size as nat + 1)
                    &&& final(self)@.block_size(block.pos as int) >= size + 1
                    &&& final(self)@.used.contains(block.pos as int)
                },
                None => {
                    &&& !old(self)@.fits(size as nat + 1)
                    &&& final(self)@ == old(self)@
                },
            },
    {
        let ghost before = self@;
        if size == HALF_WORD_MAX {
            proof {
                assert forall|p: int| before.free.contains(p) implies #[trigger] before.block_size(p)
                    < size as nat + 1 by {
                    assert(before.is_block(p));
                    assert(before.block_ok(p));
                }
            }
            return None;
        }
        let total: HalfWord = size + 1;
        let found = self.free_blocks.get_block(&self.data, total);
        match found {
            None => {
                proof {
                    assert(self@ =~= before);
                }
                None
            },
            Some(block) => {
                let ghost p = block.pos as int;
                proof {
                    assert(before.is_block(p));
                    assert(before.block_ok(p));
                    before.lemma_alloc_wf(p, total as nat);
                }
                let block_size = block.size(&self.data);
                if block_size - total > 2 {
                    proof {
                        before.lemma_split_sizes(p, total as nat);
                    }
                    let (first, second) = block.split_after(&mut self.data, total, self.size);
                    proof {
                        assert forall|q: int| self.free_blocks@.contains(q) implies size_at(
                            self.data@,
                            q,
                        ) == size_at(before.words, q) by {
                            assert(before.is_block(q));
                        }
                        assert forall|q: int| self.used_blocks@.contains(q) implies size_at(
                            self.data@,
                            q,
                        ) == size_at(before.words, q) by {
                            assert(before.is_block(q));
                        }
                        self.free_blocks.lemma_frame(before.words, self.data@);
                        self.used_blocks.lemma_frame(before.words, self.data@);
                    }
                    self.free_blocks.add_block(&self.data, second);
                    self.used_blocks.add_block(&self.data, first);
                } else {
                    self.used_blocks.add_block(&self.data, block);
                }
                proof {
                    assert(self@ =~= before.after_alloc(p, total as nat));
                }
                Some(block)
            },
        }
    }

    /// Allocates a block with room for `size` payload words and returns the
    /// address of its payload, or nothing where no free block is large
    /// enough.
    pub fn allocate(&mut self, size: HalfWord) -> (address: Option<Address>)
        requires
            old(self).wf(),
        ensures
            final(self).wf(),
            match address {
                Some(a) => {
                    &&& a.ptr >= 1
                    &&& old(self)@.is_first_fit(a.ptr - 1, size as nat + 1)
                    &&& final(self)@ == old(self)@.after_alloc(a.ptr - 1, size as nat + 1)
                    &&& final(self)@.block_size(a.ptr - 1) >= size + 1
                    &&& final(self)@.used.contains(a.ptr - 1)
                },
                None => {
                    &&& !old(self)@.fits(size as nat + 1)
                    &&& final(self)@ == old(self)@
                },
            },
    {
        match self.alloc_block(size) {
            Some(block) => {
                proof {
                    assert(self@.is_block(block.pos as int));
                    assert(self@.block_ok(block.pos as int));
                }
                Some(Address::new(block))
            },
            None => None,
        }
    }

    /// Releases the used block whose payload starts at `address`. The block
    /// becomes free and is merged with the block behind it and with the block
    /// in front of it, where these are free; the block behind the free block
    /// that comes of it records its new predecessor size.
    pub fn free(&mut self, address: Address)
        requires
            old(self).wf(),
            address.ptr >= 1,
            old(self)@.used.contains(address.ptr - 1),
        ensures
            final(self).wf(),
            final(self)@ == old(self)@.after_free(address.ptr - 1),
    {
        let ghost before = self@;
        let ghost b = address.ptr - 1;
        let ghost start = before.freed_start(b);
        let ghost end = before.freed_end(b);
        proof {
            assert(before.is_block(b));
            assert(before.block_ok(b));
            before.lemma_free_wf(b);
            if before.merges_next(b) {
                assert(before.is_block(before.block_end(b)));
                assert(before.block_ok(before.block_end(b)));
            }
            if before.merges_pred(b) {
                assert(before.is_block(start));
                assert(before.block_ok(start));
            }
            if end < before.size() {
                assert(before.is_block(end));
                assert(before.block_ok(end));
            }
        }
        let mut block: Block = Block::from(address);
        self.used_blocks.remove_block(&self.data, block);

        let mut size = block.size(&self.data);
        let next_block = block.next_block(&self.data, self.size);
        if let Some(next) = next_block {
            if self.free_blocks.contains(&self.data, next) {
                self.free_blocks.remove_block(&self.data, next);
                size += next.size(&self.data);
            }
        }
        assert(size == end - b);

        let mut merged = block;
        let pred_block = block.pred_block(&self.data, self.start());
        let merges_pred = match pred_block {
            Some(pred) => self.free_blocks.contains(&self.data, pred),
            None => false,
        };
        assert(merges_pred == before.merges_pred(b));
        if merges_pred {
            merged = pred_block.unwrap();
            self.free_blocks.remove_block(&self.data, merged);
            merged.inc_size(&mut self.data, size);
            size = merged.size(&self.data);
        } else {
            block.set_size(&mut self.data, size);
        }
        proof {
            assert(merged.pos == start);
            assert(size == end - start);
            self.lemma_sets_frame(before, start);
        }
        self.free_blocks.add_block(&self.data, merged);

        let ghost middle = self.data@;
        if let Some(mut after) = merged.next_block(&self.data, self.size) {
            after.set_pred_size(&mut self.data, size);
            proof {
                self.free_blocks.lemma_frame(middle, self.data@);
                self.used_blocks.lemma_frame(middle, self.data@);
            }
        }
        proof {
            assert(self@ =~= before.after_free(b));
        }
    }

    /// Releases the used blocks whose payloads start at `addresses`, one
    /// after the other. Every other used block stays as it is.
    pub fn free_all(&mut self, addresses: &Vec<Address>)
        requires
            old(self).wf(),
            heads(addresses@).no_duplicates(),
            forall|i: int|
                0 <= i < addresses@.len() ==> old(self)@.used.contains(
                    #[trigger] heads(addresses@)[i],
                ),
        ensures
            final(self).wf(),
            final(self)@ == old(self)@.after_free_all(heads(addresses@)),
            final(self)@.used == old(self)@.used.difference(heads(addresses@).to_set()),
            forall|q: int| #[trigger]
                final(self)@.used.contains(q) ==> final(self)@.block_size(q) == old(
                    self,
                )@.block_size(q) && final(self)@.payload(q) == old(self)@.payload(q),
    {
        let ghost before = self@;
        let ghost doomed = heads(addresses@);
        let mut i: usize = 0;
        assert(self@.used =~= before.used.difference(doomed.take(0).to_set()));
        while i < addresses.len()
            invariant
                i <= addresses@.len(),
                doomed == heads(addresses@),
                doomed.no_duplicates(),
                self.wf(),
                self@.used == before.used.difference(doomed.take(i as int).to_set()),
                forall|k: int| 0 <= k < doomed.len() ==> before.used.contains(#[trigger] doomed[k]),
                forall|q: int| #[trigger]
                    self@.used.contains(q) ==> self@.block_size(q) == before.block_size(q)
                        && self@.payload(q) == before.payload(q),
                self@ == before.after_free_all(doomed.take(i as int)),
            decreases addresses@.len() - i,
        {
            let address = addresses[i];
            let ghost step = self@;
            let ghost b = doomed[i as int];
            proof {
                assert(b == address.ptr - 1);
                assert(before.used.contains(b));
                if doomed.take(i as int).contains(b) {
                    let k = choose|k: int| 0 <= k < i && doomed.take(i as int)[k] == b;
                    assert(doomed[k] == doomed[i as int]);
                }
                assert(step.used.contains(b));
                assert(step.is_block(b));
                assert(step.block_ok(b));
            }
            self.free(address);
            proof {
                assert forall|q: int| #[trigger] self@.used.contains(q) implies self@.block_size(q)
                    == before.block_size(q) && self@.payload(q) == before.payload(q) by {
                    assert(step.used.contains(q));
                    step.lemma_free_keeps_used(b, q);
                }
                assert(doomed.take(i + 1) =~= doomed.take(i as int).push(b));
                assert(doomed.take(i + 1).drop_last() =~= doomed.take(i as int));
                doomed.take(i as int).lemma_push_to_set_commute(b);
                assert(self@.used =~= before.used.difference(doomed.take(i + 1).to_set()));
            }
            i += 1;
        }
        assert(doomed.take(i as int) =~= doomed);
    }

    /// Both block sets stay sorted when the header at `at`, the place of a
    /// block that neither set holds, has been rewritten.
    proof fn lemma_sets_frame(&self, before: HeapView, at: int)
        requires
            0 <= at < before.words.len(),
            self.data@ == before.words.update(at, self.data@[at]),
            self.free_blocks.wf(before.words),
            self.used_blocks.wf(before.words),
            !self.free_blocks@.contains(at),
            !self.used_blocks@.contains(at),
        ensures
            self.free_blocks.wf(self.data@),
            self.used_blocks.wf(self.data@),
    {
        self.free_blocks.lemma_frame(before.words, self.data@);
        self.used_blocks.lemma_frame(before.words, self.data@);
    }
}

} // verus!
