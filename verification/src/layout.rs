//! The mathematical model of a heap: the words of its region and the
//! positions of its free and of its used blocks.
//!
//! The model states what a well-formed heap is, what an allocation and a
//! release turn it into, and the laws that every well-formed heap obeys.

use vstd::prelude::*;
use crate::types::{Word, HALF_WORD_MAX};
use crate::region::{size_at, pred_size_at};
use crate::block::header::{pack, lemma_pack_sizes, lemma_sizes_fit};
use crate::block::set::key_le;
use crate::block::split_words;

verus! {

/// What a heap is, seen from outside: the words of the region, and the
/// positions of the header words of the free and of the used blocks.
#[verifier::ext_equal]
pub struct HeapView {
    pub words: Seq<Word>,
    pub free: Set<int>,
    pub used: Set<int>,
}

impl HeapView {
    /// The size of the region in words.
    pub open spec fn size(self) -> nat {
        self.words.len()
    }

    /// Whether a block, free or used, starts at `p`.
    pub open spec fn is_block(self, p: int) -> bool {
        self.free.contains(p) || self.used.contains(p)
    }

    #[verifier::inline]
    pub open spec fn member(self, p: int) -> bool {
        self.free.contains(p) || self.used.contains(p)
    }

    /// The size of the block at `p`.
    pub open spec fn block_size(self, p: int) -> nat {
        size_at(self.words, p)
    }

    /// The position right behind the block at `p`.
    pub open spec fn block_end(self, p: int) -> int {
        p + size_at(self.words, p)
    }

    /// What holds of the block at `p` in a well-formed heap. It lies inside
    /// the region and has at least its header. Where it ends, the region ends
    /// or a block starts that records this block's size as its predecessor
    /// size. A block starts where it says that its predecessor does, unless it
    /// is the first. And no free block is followed by a free one.
    pub open spec fn block_ok(self, p: int) -> bool {
        let s = size_at(self.words, p);
        let ps = pred_size_at(self.words, p);
        &&& 0 <= p < self.size()
        &&& s >= 1
        &&& p + s <= self.size()
        &&& p + s < self.size() ==> self.member(p + s) && pred_size_at(self.words, p + s) == s
        &&& p == 0 ==> ps == 0
        &&& p > 0 ==> ps >= 1 && self.member(p - ps) && size_at(self.words, p - ps) == ps
        &&& self.free.contains(p) && p + s < self.size() ==> !self.free.contains(p + s)
    }

    /// Whether the heap is well-formed: the region is not empty and no larger
    /// than a header can say, a block starts at its first word, no block is
    /// both free and used, and every block is in order.
    pub open spec fn wf(self) -> bool {
        &&& 1 <= self.size() <= HALF_WORD_MAX
        &&& self.is_block(0)
        &&& forall|p: int| !(self.free.contains(p) && self.used.contains(p))
        &&& forall|p: int| #[trigger] self.is_block(p) ==> self.block_ok(p)
    }

    /// The payload of the block at `p`: its words but the header.
    pub open spec fn payload(self, p: int) -> Seq<Word> {
        self.words.subrange(p + 1, self.block_end(p))
    }

    /// Whether `other` has the same blocks: the same free and used
    /// positions, and the same header for each.
    pub open spec fn same_blocks(self, other: HeapView) -> bool {
        &&& self.free == other.free
        &&& self.used == other.used
        &&& self.words.len() == other.words.len()
        &&& forall|p: int| #[trigger] self.is_block(p) ==> self.words[p] == other.words[p]
    }

    /// Whether every word that is not a payload word of a used block of
    /// `other` is the same in both heaps.
    pub open spec fn same_outside_payloads(self, other: HeapView) -> bool {
        &&& self.words.len() == other.words.len()
        &&& forall|w: int|
            0 <= w < other.words.len() && !other.owns(w) ==> #[trigger] self.words[w]
                == other.words[w]
    }

    /// Whether `a` is the index of a payload word of a used block.
    pub open spec fn owns(self, a: int) -> bool {
        exists|b: int| self.used.contains(b) && b < a < #[trigger] self.block_end(b)
    }

    /// Whether some free block has at least `total` words.
    pub open spec fn fits(self, total: nat) -> bool {
        exists|p: int| self.free.contains(p) && #[trigger] self.block_size(p) >= total
    }

    /// Whether the block at `p` is the one that a request for `total` words
    /// is served from: the smallest free block that is large enough and, of
    /// several such, the one at the lowest position.
    pub open spec fn is_first_fit(self, p: int, total: nat) -> bool {
        &&& self.free.contains(p)
        &&& self.block_size(p) >= total
        &&& forall|q: int|
            self.free.contains(q) && #[trigger] self.block_size(q) >= total ==> key_le(
                self.words,
                p,
                q,
            )
    }

    /// The heap after `total` words have been allocated from the free block
    /// at `p`. A block with more than two words to spare is split, and what
    /// is left of it stays free; a smaller one is handed out whole.
    pub open spec fn after_alloc(self, p: int, total: nat) -> HeapView {
        if self.block_size(p) > total + 2 {
            HeapView {
                words: split_words(self.words, p, total, self.size() as int),
                free: self.free.remove(p).insert(p + total),
                used: self.used.insert(p),
            }
        } else {
            HeapView { words: self.words, free: self.free.remove(p), used: self.used.insert(p) }
        }
    }

    /// Whether the block behind the used block at `b` is free, so that a
    /// release of `b` merges the two.
    pub open spec fn merges_next(self, b: int) -> bool {
        self.block_end(b) < self.size() && self.free.contains(self.block_end(b))
    }

    /// Whether the block in front of the used block at `b` is free, so that
    /// a release of `b` merges the two.
    pub open spec fn merges_pred(self, b: int) -> bool {
        pred_size_at(self.words, b) > 0 && self.free.contains(b - pred_size_at(self.words, b))
    }

    /// Where the free block starts that a release of the block at `b` makes.
    pub open spec fn freed_start(self, b: int) -> int {
        if self.merges_pred(b) {
            b - pred_size_at(self.words, b)
        } else {
            b
        }
    }

    /// Where the free block ends that a release of the block at `b` makes.
    pub open spec fn freed_end(self, b: int) -> int {
        if self.merges_next(b) {
            self.block_end(self.block_end(b))
        } else {
            self.block_end(b)
        }
    }

    /// The heap after the used block at `b` has been released. The block is
    /// merged with the block behind it and with the block in front of it,
    /// where these are free. Only two words change: the header of the free
    /// block that comes of it, and the header of the block behind that one,
    /// which records its new predecessor size.
    pub open spec fn after_free(self, b: int) -> HeapView {
        let start = self.freed_start(b);
        let end = self.freed_end(b);
        let total = (end - start) as nat;
        let merged = self.words.update(
            start,
            pack(pred_size_at(self.words, start), total) as Word,
        );
        HeapView {
            words: if end < self.size() {
                merged.update(end, pack(total, size_at(self.words, end)) as Word)
            } else {
                merged
            },
            free: (if self.merges_next(b) {
                self.free.remove(self.block_end(b))
            } else {
                self.free
            }).insert(start),
            used: self.used.remove(b),
        }
    }

    /// The heap after the used blocks at `heads` have been released, one
    /// after the other.
    pub open spec fn after_free_all(self, heads: Seq<int>) -> HeapView
        decreases heads.len(),
    {
        if heads.len() == 0 {
            self
        } else {
            self.after_free_all(heads.drop_last()).after_free(heads.last())
        }
    }

    /// In a well-formed heap blocks do not overlap: a block that starts
    /// behind another starts at or behind the other's end.
    pub proof fn lemma_no_overlap(self, b: int, q: int)
        requires
            self.wf(),
            self.is_block(b),
            self.is_block(q),
            b < q,
        ensures
            self.block_end(b) <= q,
        decreases q,
    {
        assert(self.block_ok(q));
        assert(self.block_ok(b));
        let pred = q - pred_size_at(self.words, q);
        assert(self.is_block(pred));
        assert(self.block_ok(pred));
        if pred > b {
            self.lemma_no_overlap(b, pred);
        } else if pred < b {
            self.lemma_no_overlap(pred, b);
        }
    }

    /// In a well-formed heap no block starts inside another.
    pub proof fn lemma_payload_holds_no_block(self, b: int, a: int)
        requires
            self.wf(),
            self.is_block(b),
            b < a < self.block_end(b),
        ensures
            !self.is_block(a),
    {
        if self.is_block(a) {
            self.lemma_no_overlap(b, a);
        }
    }

    /// A heap stays well-formed when its words change without touching the
    /// header of any block.
    pub proof fn lemma_headers_frame(self, other: HeapView)
        requires
            self.wf(),
            other.free == self.free,
            other.used == self.used,
            other.words.len() == self.words.len(),
            forall|p: int| #[trigger] self.is_block(p) ==> other.words[p] == self.words[p],
        ensures
            other.wf(),
    {
        assert(other.is_block(0));
        assert forall|p: int| #[trigger] other.is_block(p) implies other.block_ok(p) by {
            assert(self.is_block(p));
            assert(self.block_ok(p));
            let s = size_at(self.words, p);
            let ps = pred_size_at(self.words, p);
            if p + s < self.size() {
                assert(self.is_block(p + s));
            }
            if p > 0 {
                assert(self.is_block(p - ps));
            }
        }
    }

    /// A release leaves every other used block as it is: used, of the same
    /// size and with the same payload.
    pub proof fn lemma_free_keeps_used(self, b: int, q: int)
        requires
            self.wf(),
            self.used.contains(b),
            self.used.contains(q),
            q != b,
        ensures
            self.after_free(b).used.contains(q),
            self.after_free(b).block_size(q) == self.block_size(q),
            self.after_free(b).payload(q) == self.payload(q),
    {
        let n = self.size();
        let start = self.freed_start(b);
        let end = self.freed_end(b);
        let total = (end - start) as nat;
        let new = self.after_free(b);
        assert(self.is_block(b));
        assert(self.block_ok(b));
        assert(self.is_block(q));
        assert(self.block_ok(q));
        if self.merges_next(b) {
            assert(self.is_block(self.block_end(b)));
            assert(self.block_ok(self.block_end(b)));
        }
        assert(self.is_block(start));
        lemma_sizes_fit(self.words[start]);
        lemma_pack_sizes(pred_size_at(self.words, start), total);
        if end < n {
            assert(self.is_block(end));
            lemma_sizes_fit(self.words[end]);
            lemma_pack_sizes(total, size_at(self.words, end));
        }
        assert(new.block_size(q) == self.block_size(q));
        assert forall|w: int| q < w < self.block_end(q) implies new.words[w] == self.words[w] by {
            self.lemma_payload_holds_no_block(q, w);
        }
        assert(new.payload(q) =~= self.payload(q));
    }

    /// Heaps with the same blocks have payloads of the same lengths.
    pub proof fn lemma_same_payload_len(self, other: HeapView, p: int)
        requires
            self.wf(),
            self.same_blocks(other),
            self.is_block(p),
        ensures
            self.block_size(p) == other.block_size(p),
            self.payload(p).len() == other.payload(p).len(),
    {
        assert(self.block_ok(p));
    }

    /// Heaps with the same blocks own the same payload words.
    pub proof fn lemma_same_owns(self, other: HeapView, w: int)
        requires
            self.same_blocks(other),
        ensures
            self.owns(w) == other.owns(w),
    {
        if self.owns(w) {
            let b = choose|b: int| self.used.contains(b) && b < w < #[trigger] self.block_end(b);
            assert(self.is_block(b));
            assert(other.block_end(b) == self.block_end(b));
        }
        if other.owns(w) {
            let b = choose|b: int|
                other.used.contains(b) && b < w < #[trigger] other.block_end(b);
            assert(self.is_block(b));
            assert(other.block_end(b) == self.block_end(b));
        }
    }

    /// Leaving the words outside the payloads as they are carries over from
    /// heap to heap, where the heaps have the same blocks.
    pub proof fn lemma_same_outside_trans(self, second: HeapView, third: HeapView)
        requires
            self.same_blocks(second),
            self.same_outside_payloads(second),
            second.same_blocks(third),
            second.same_outside_payloads(third),
        ensures
            self.same_outside_payloads(third),
    {
        assert forall|w: int| 0 <= w < third.words.len() && !third.owns(w) implies #[trigger]
            self.words[w] == third.words[w] by {
            second.lemma_same_owns(third, w);
            assert(second.words[w] == third.words[w]);
        }
    }

    /// Having the same blocks carries over from heap to heap.
    pub proof fn lemma_same_blocks_trans(self, second: HeapView, third: HeapView)
        requires
            self.same_blocks(second),
            second.same_blocks(third),
        ensures
            self.same_blocks(third),
    {
        assert forall|p: int| #[trigger] self.is_block(p) implies self.words[p] == third.words[p] by {
            assert(second.is_block(p));
        }
    }

    /// In a well-formed heap two blocks that end at one place are one block.
    pub proof fn lemma_end_unique(self, p: int, q: int)
        requires
            self.wf(),
            self.is_block(p),
            self.is_block(q),
            self.block_end(p) == self.block_end(q),
        ensures
            p == q,
    {
        assert(self.block_ok(p));
        assert(self.block_ok(q));
        if p < q {
            self.lemma_no_overlap(p, q);
        } else if q < p {
            self.lemma_no_overlap(q, p);
        }
    }

    /// An allocation from a free block leaves the heap well-formed.
    pub proof fn lemma_alloc_wf(self, p: int, total: nat)
        requires
            self.wf(),
            self.free.contains(p),
            1 <= total <= self.block_size(p),
        ensures
            self.after_alloc(p, total).wf(),
    {
        let new = self.after_alloc(p, total);
        let n = self.size();
        let s = self.block_size(p);
        let e = p + s;
        assert(self.is_block(p));
        assert(self.block_ok(p));
        if s > total + 2 {
            let m = p + total;
            let rest = (s - total) as nat;
            self.lemma_payload_holds_no_block(p, m);
            lemma_sizes_fit(self.words[p]);
            lemma_pack_sizes(total, rest);
            lemma_pack_sizes(pred_size_at(self.words, p), total);
            if e < n {
                assert(self.is_block(e));
                assert(self.block_ok(e));
                lemma_pack_sizes(rest, size_at(self.words, e));
            }
            assert(new.is_block(0)) by {
                if p != 0 {
                    assert(self.is_block(0));
                }
            }
            assert forall|q: int| #[trigger] new.is_block(q) implies new.block_ok(q) by {
                if q == p {
                    if p > 0 {
                        let pp = p - pred_size_at(self.words, p);
                        assert(self.is_block(pp));
                        assert(self.block_ok(pp));
                    }
                } else if q == m {
                } else if q == e {
                    assert(self.is_block(e));
                    let se = size_at(self.words, e);
                    if e + se < n {
                        assert(self.is_block(e + se));
                    }
                } else {
                    assert(self.is_block(q));
                    assert(self.block_ok(q));
                    let sq = size_at(self.words, q);
                    let pq = q - pred_size_at(self.words, q);
                    if q + sq < n {
                        assert(self.is_block(q + sq));
                        if q + sq == e {
                            self.lemma_end_unique(p, q);
                        }
                    }
                    if q > 0 {
                        assert(self.is_block(pq));
                        assert(self.block_ok(pq));
                    }
                }
            }
        } else {
            assert(new.is_block(0)) by {
                assert(self.is_block(0));
            }
            assert forall|q: int| #[trigger] new.is_block(q) implies new.block_ok(q) by {
                assert(self.is_block(q));
                assert(self.block_ok(q));
            }
        }
    }

    /// A release of a used block leaves the heap well-formed.
    #[verifier::rlimit(50)]
    pub proof fn lemma_free_wf(self, b: int)
        requires
            self.wf(),
            self.used.contains(b),
        ensures
            self.after_free(b).wf(),
    {
        let new = self.after_free(b);
        let n = self.size();
        let s = self.block_size(b);
        let nx = b + s;
        let pr = b - pred_size_at(self.words, b);
        let start = self.freed_start(b);
        let end = self.freed_end(b);
        let total = (end - start) as nat;
        assert(self.is_block(b));
        assert(self.block_ok(b));
        if self.merges_next(b) {
            assert(self.is_block(nx));
            assert(self.block_ok(nx));
        }
        if self.merges_pred(b) {
            assert(self.is_block(pr));
            assert(self.block_ok(pr));
        }
        assert(self.is_block(start));
        assert(self.block_ok(start));
        lemma_sizes_fit(self.words[start]);
        lemma_pack_sizes(pred_size_at(self.words, start), total);
        if end < n {
            assert(self.is_block(end));
            assert(self.block_ok(end));
            lemma_pack_sizes(total, size_at(self.words, end));
        }
        let nw = new.words;
        assert(nw.len() == n);
        assert(size_at(nw, start) == total);
        assert(pred_size_at(nw, start) == pred_size_at(self.words, start));
        assert(end < n ==> size_at(nw, end) == size_at(self.words, end) && pred_size_at(nw, end)
            == total);
        assert(forall|x: int| 0 <= x < n && x != start && x != end ==> nw[x] == self.words[x]);
        assert(new.is_block(0)) by {
            assert(self.is_block(0));
        }
        assert forall|q: int| #[trigger] new.is_block(q) implies new.block_ok(q) by {
            assert(self.is_block(q));
            assert(self.block_ok(q));
            let sq = size_at(self.words, q);
            let pq = q - pred_size_at(self.words, q);
            if q == start {
                if start > 0 {
                    let ps = start - pred_size_at(self.words, start);
                    assert(self.is_block(ps));
                    assert(self.block_ok(ps));
                }
            } else if q == end {
                if end + sq < n {
                    assert(self.is_block(end + sq));
                }
            } else {
                if q + sq < n {
                    assert(self.is_block(q + sq));
                    assert(self.block_ok(q + sq));
                    if q + sq == nx {
                        self.lemma_end_unique(b, q);
                    }
                    if q + sq == end && self.merges_next(b) {
                        self.lemma_end_unique(nx, q);
                    }
                }
                if q > 0 {
                    assert(self.is_block(pq));
                    assert(self.block_ok(pq));
                }
            }
        }
    }

    /// A split of the block at `p` changes the size of no other block, and
    /// puts a header nowhere but at `p`, behind its first `total` words, and
    /// at its end.
    pub proof fn lemma_split_sizes(self, p: int, total: nat)
        requires
            self.wf(),
            self.is_block(p),
            1 <= total < self.block_size(p),
        ensures
            split_words(self.words, p, total, self.size() as int).len() == self.size(),
            !self.is_block(p + total),
            forall|q: int| #[trigger]
                self.is_block(q) && q != p ==> size_at(
                    split_words(self.words, p, total, self.size() as int),
                    q,
                ) == size_at(self.words, q),
            size_at(split_words(self.words, p, total, self.size() as int), p) == total,
            size_at(split_words(self.words, p, total, self.size() as int), p + total)
                == self.block_size(p) - total,
    {
        let n = self.size();
        let s = self.block_size(p);
        let e = p + s;
        let rest = (s - total) as nat;
        assert(self.block_ok(p));
        self.lemma_payload_holds_no_block(p, p + total);
        lemma_sizes_fit(self.words[p]);
        lemma_pack_sizes(total, rest);
        lemma_pack_sizes(pred_size_at(self.words, p), total);
        if e < n {
            lemma_sizes_fit(self.words[e]);
            lemma_pack_sizes(rest, size_at(self.words, e));
        }
    }
}

} // verus!
