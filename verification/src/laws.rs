//! Laws of the well-formed heap.
//!
//! The blocks of a heap, walked from the first word on, tile the region:
//! each starts where the one before it ends, and the last ends where the
//! region ends. The laws below are stated over that walk.

use vstd::prelude::*;
use crate::layout::HeapView;
use crate::region::{size_at, pred_size_at};

verus! {

impl HeapView {
    /// The positions of the blocks from `p` on, in address order: `p` itself,
    /// then the position behind the block at `p`, and so on to the end of
    /// the region. The walk stops at a header whose size is 0 or leads out of
    /// the region; a well-formed heap has none.
    pub open spec fn walk(self, p: int) -> Seq<int>
        decreases self.size() - p,
    {
        if 0 <= p < self.size() && 1 <= size_at(self.words, p) <= self.size() - p {
            seq![p] + self.walk(p + size_at(self.words, p))
        } else {
            Seq::empty()
        }
    }

    /// The positions of all blocks, in address order.
    pub open spec fn blocks(self) -> Seq<int> {
        self.walk(0)
    }

    /// The sum of the sizes of the blocks at `positions`.
    pub open spec fn sum_sizes(self, positions: Seq<int>) -> int
        decreases positions.len(),
    {
        if positions.len() == 0 {
            0
        } else {
            self.block_size(positions[0]) + self.sum_sizes(positions.drop_first())
        }
    }

    /// Whether the blocks at `positions` lie side by side from `p` to the end
    /// of the region, each recording the size of the one before it.
    pub open spec fn chained(self, positions: Seq<int>, p: int) -> bool {
        &&& positions.len() >= 1
        &&& positions[0] == p
        &&& forall|i: int|
            1 <= i < positions.len() ==> #[trigger] positions[i] == self.block_end(
                positions[i - 1],
            ) && pred_size_at(self.words, positions[i]) == self.block_size(positions[i - 1])
        &&& self.block_end(positions.last()) == self.size()
    }

    /// The walk from a block on visits blocks only, and every block from
    /// there on; the blocks it visits lie side by side up to the end of the
    /// region, and their sizes add up to what lies between.
    pub proof fn lemma_walk(self, p: int)
        requires
            self.wf(),
            self.is_block(p),
        ensures
            self.chained(self.walk(p), p),
            self.sum_sizes(self.walk(p)) == self.size() - p,
            forall|i: int| 0 <= i < self.walk(p).len() ==> self.is_block(#[trigger] self.walk(p)[i]),
            forall|q: int| self.is_block(q) && p <= q ==> self.walk(p).contains(q),
        decreases self.size() - p,
    {
        let w = self.walk(p);
        let next = self.block_end(p);
        let rest = self.walk(next);
        assert(self.block_ok(p));
        assert(w =~= seq![p] + rest);
        assert(w.drop_first() =~= rest);
        assert(w[0] == p);
        if next < self.size() {
            assert(self.is_block(next));
            self.lemma_walk(next);
            assert forall|i: int| 1 <= i < w.len() implies #[trigger] w[i] == self.block_end(
                w[i - 1],
            ) && pred_size_at(self.words, w[i]) == self.block_size(w[i - 1]) by {
                assert(w[i] == rest[i - 1]);
                if i > 1 {
                    assert(w[i - 1] == rest[i - 2]);
                }
            }
            assert(w.last() == rest.last());
            assert forall|i: int| 0 <= i < w.len() implies self.is_block(#[trigger] w[i]) by {
                if i > 0 {
                    assert(w[i] == rest[i - 1]);
                }
            }
            assert forall|q: int| self.is_block(q) && p <= q implies w.contains(q) by {
                if q > p {
                    self.lemma_no_overlap(p, q);
                    assert(rest.contains(q));
                    let k = choose|k: int| 0 <= k < rest.len() && rest[k] == q;
                    assert(w[k + 1] == q);
                }
            }
        } else {
            assert(rest =~= Seq::<int>::empty());
            assert(self.sum_sizes(rest) == 0);
            assert forall|q: int| self.is_block(q) && p <= q implies w.contains(q) by {
                if q > p {
                    self.lemma_no_overlap(p, q);
                    assert(self.block_ok(q));
                }
            }
        }
    }

    /// Coverage: the sizes of all blocks, free and used, add up to the size
    /// of the region.
    pub proof fn lemma_coverage(self)
        requires
            self.wf(),
        ensures
            self.sum_sizes(self.blocks()) == self.size(),
    {
        self.lemma_walk(0);
    }

    /// Adjacency: every block but the first starts where the block before it
    /// ends, and records that block's size as its predecessor size.
    pub proof fn lemma_adjacency(self, i: int)
        requires
            self.wf(),
            1 <= i < self.blocks().len(),
        ensures
            self.blocks()[i] == self.block_end(self.blocks()[i - 1]),
            pred_size_at(self.words, self.blocks()[i]) == self.block_size(self.blocks()[i - 1]),
    {
        self.lemma_walk(0);
    }

    /// Partition: the blocks on the walk are the free and the used blocks,
    /// and each of them is either free or used, never both.
    pub proof fn lemma_partition(self, p: int)
        requires
            self.wf(),
        ensures
            self.blocks().contains(p) <==> self.free.contains(p) || self.used.contains(p),
            !(self.free.contains(p) && self.used.contains(p)),
    {
        self.lemma_walk(0);
        if self.is_block(p) {
            assert(self.block_ok(p));
        }
        if self.blocks().contains(p) {
            let k = choose|k: int| 0 <= k < self.blocks().len() && self.blocks()[k] == p;
            assert(self.is_block(self.blocks()[k]));
        }
    }

    /// No two blocks that lie side by side are both free.
    pub proof fn lemma_no_adjacent_free(self, i: int)
        requires
            self.wf(),
            1 <= i < self.blocks().len(),
        ensures
            !(self.free.contains(self.blocks()[i - 1]) && self.free.contains(self.blocks()[i])),
    {
        self.lemma_walk(0);
        let p = self.blocks()[i - 1];
        assert(self.is_block(p));
        assert(self.block_ok(p));
        assert(self.is_block(self.blocks()[i]));
        assert(self.block_ok(self.blocks()[i]));
    }

    /// The first block starts at the first word of the region and has no
    /// predecessor; the last block ends where the region ends, so that no
    /// block follows it.
    pub proof fn lemma_ends(self)
        requires
            self.wf(),
        ensures
            self.blocks().len() >= 1,
            self.blocks().first() == 0,
            pred_size_at(self.words, self.blocks().first()) == 0,
            self.block_end(self.blocks().last()) == self.size(),
    {
        self.lemma_walk(0);
        assert(self.block_ok(0));
    }

    /// Full coalescing: a heap without used blocks is one free block that
    /// spans the region, so that a request for the whole region, header
    /// included, is served from it.
    pub proof fn lemma_empty_heap_is_one_block(self)
        requires
            self.wf(),
            forall|p: int| !self.used.contains(p),
        ensures
            forall|p: int| self.free.contains(p) <==> p == 0,
            self.block_size(0) == self.size(),
            self.is_first_fit(0, self.size()),
    {
        assert(self.block_ok(0));
        if self.block_end(0) < self.size() {
            assert(self.is_block(self.block_end(0)));
        }
        assert forall|p: int| self.free.contains(p) implies p == 0 by {
            assert(self.is_block(p));
            assert(self.block_ok(p));
            if p > 0 {
                self.lemma_no_overlap(0, p);
            }
        }
    }
}

} // verus!
