//! An ordered set of blocks, smallest first.
//!
//! Blocks are ordered by their size and, among blocks of one size, by their
//! position. The sizes are those that the blocks' headers hold in the region,
//! so every operation takes the region, and a set is well-formed only with
//! respect to the words of a region.

use vstd::prelude::*;
use crate::types::{HalfWord, Word};
use crate::region::{Region, size_at};
use super::Block;

verus! {

/// Whether the block at `a` comes before a block of `size` words at `pos`.
pub open spec fn before(words: Seq<Word>, a: int, size: nat, pos: int) -> bool {
    size_at(words, a) < size || (size_at(words, a) == size && a < pos)
}

/// Whether the block at `a` comes strictly before the block at `b`.
pub open spec fn key_lt(words: Seq<Word>, a: int, b: int) -> bool {
    before(words, a, size_at(words, b), b)
}

/// Whether the block at `a` is the block at `b` or comes before it.
pub open spec fn key_le(words: Seq<Word>, a: int, b: int) -> bool {
    a == b || key_lt(words, a, b)
}

/// Whether the blocks at `positions` stand in strictly ascending order of
/// size and, among blocks of one size, of position.
pub open spec fn ascending(words: Seq<Word>, positions: Seq<int>) -> bool {
    forall|i: int, j: int|
        #![trigger positions[i], positions[j]]
        0 <= i < j < positions.len() ==> key_lt(words, positions[i], positions[j])
}

/// Taking the element at index `i` out of a sequence without repetitions
/// takes exactly that element out of its set.
pub proof fn lemma_remove_to_set(s: Seq<int>, i: int)
    requires
        0 <= i < s.len(),
        s.no_duplicates(),
    ensures
        s.remove(i).to_set() == s.to_set().remove(s[i]),
{
    let r = s.remove(i);
    assert forall|v: int| r.to_set().contains(v) <==> s.to_set().remove(s[i]).contains(v) by {
        if r.contains(v) {
            let k = choose|k: int| 0 <= k < r.len() && r[k] == v;
            if k < i {
                assert(s[k] == v);
            } else {
                assert(s[k + 1] == v);
            }
        }
        if s.contains(v) && v != s[i] {
            let k = choose|k: int| 0 <= k < s.len() && s[k] == v;
            if k < i {
                assert(r[k] == v);
            } else {
                assert(r[k - 1] == v);
            }
        }
    }
    assert(r.to_set() =~= s.to_set().remove(s[i]));
}

/// Putting a value into a sequence puts it into its set.
pub proof fn lemma_insert_to_set(s: Seq<int>, i: int, v: int)
    requires
        0 <= i <= s.len(),
    ensures
        s.insert(i, v).to_set() == s.to_set().insert(v),
{
    let r = s.insert(i, v);
    assert forall|w: int| r.to_set().contains(w) <==> s.to_set().insert(v).contains(w) by {
        if r.contains(w) {
            let k = choose|k: int| 0 <= k < r.len() && r[k] == w;
            if k < i {
                assert(s[k] == w);
            } else if k > i {
                assert(s[k - 1] == w);
            }
        }
        if w == v {
            assert(r[i] == w);
        } else if s.contains(w) {
            let k = choose|k: int| 0 <= k < s.len() && s[k] == w;
            if k < i {
                assert(r[k] == w);
            } else {
                assert(r[k + 1] == w);
            }
        }
    }
    assert(r.to_set() =~= s.to_set().insert(v));
}

/// A sequence with one more value at its end holds that value and what it
/// held before.
pub proof fn lemma_push_contains(s: Seq<int>, v: int)
    ensures
        forall|q: int| s.push(v).contains(q) <==> s.contains(q) || q == v,
{
    assert forall|q: int| s.push(v).contains(q) <==> s.contains(q) || q == v by {
        if s.contains(q) {
            let k = choose|k: int| 0 <= k < s.len() && s[k] == q;
            assert(s.push(v)[k] == q);
        }
        if q == v {
            assert(s.push(v)[s.len() as int] == v);
        }
    }
}

/// The blocks of one kind, free or used, that a heap keeps track of.
pub struct BlockSet {
    blocks: Vec<Block>,
}

impl View for BlockSet {
    type V = Set<int>;

    /// The positions of the blocks in the set.
    open spec fn view(&self) -> Set<int> {
        self.positions().to_set()
    }
}

impl Default for BlockSet {
    fn default() -> (set: BlockSet)
        ensures
            set.positions() == Seq::<int>::empty(),
    {
        let set = BlockSet { blocks: Vec::new() };
        assert(set.positions() =~= Seq::<int>::empty());
        set
    }
}

impl BlockSet {
    /// The positions of the blocks in the set, in the order of the set.
    pub closed spec fn positions(&self) -> Seq<int> {
        Seq::new(self.blocks@.len(), |i: int| self.blocks@[i].pos as int)
    }

    /// Whether every block of the set has its header inside `words` and the
    /// blocks stand in strictly ascending order of size and position.
    pub open spec fn wf(&self, words: Seq<Word>) -> bool {
        let p = self.positions();
        &&& forall|i: int| 0 <= i < p.len() ==> 0 <= #[trigger] p[i] < words.len()
        &&& ascending(words, p)
    }

    /// A well-formed set holds no block twice, so it has as many blocks as
    /// positions.
    pub proof fn lemma_distinct(&self, words: Seq<Word>)
        requires
            self.wf(words),
        ensures
            self.positions().no_duplicates(),
            self@.finite(),
            self@.len() == self.positions().len(),
    {
        let p = self.positions();
        assert forall|i: int, j: int| 0 <= i < p.len() && 0 <= j < p.len() && i != j implies p[i]
            != p[j] by {
            if i < j {
                assert(key_lt(words, p[i], p[j]));
            } else {
                assert(key_lt(words, p[j], p[i]));
            }
        }
        p.unique_seq_to_set();
        vstd::seq_lib::seq_to_set_is_finite(p);
    }

    /// A set stays well-formed when the region changes without touching the
    /// sizes of the set's blocks.
    pub proof fn lemma_frame(&self, before_words: Seq<Word>, after_words: Seq<Word>)
        requires
            self.wf(before_words),
            after_words.len() == before_words.len(),
            forall|p: int|
                self@.contains(p) && 0 <= p < before_words.len() ==> size_at(after_words, p)
                    == size_at(before_words, p),
        ensures
            self.wf(after_words),
    {
        let p = self.positions();
        assert forall|i: int, j: int|
            #![trigger p[i], p[j]]
            0 <= i < j < p.len() implies key_lt(after_words, p[i], p[j]) by {
            assert(self@.contains(p[i]));
            assert(self@.contains(p[j]));
            assert(key_lt(before_words, p[i], p[j]));
        }
    }

    /// Makes a block of `size` words at index `pos`, with no predecessor, and
    /// the set that holds just this block.
    pub fn from_raw(region: &mut Region, pos: usize, size: HalfWord) -> (set: BlockSet)
        requires
            pos < old(region)@.len(),
        ensures
            set.positions() == seq![pos as int],
            set.wf(final(region)@),
            final(region)@ == old(region)@.update(
                pos as int,
                super::header::pack(0, size as nat) as Word,
            ),
    {
        let mut set = BlockSet::default();
        let block = Block::new(region, pos, size, 0);
        let ghost none = set.positions();
        assert(!none.contains(pos as int));
        set.add_block(region, block);
        proof {
            let p = set.positions();
            assert(p.len() == 1);
            assert(p.contains(p[0]));
            assert(none.to_set().insert(pos as int).contains(p[0]));
            assert(!none.contains(p[0]));
            assert(p =~= seq![pos as int]);
        }
        set
    }

    /// The index of the first block of the set that does not come before a
    /// block of `size` words at `pos`.
    fn lower_bound(&self, region: &Region, size: HalfWord, pos: usize) -> (idx: usize)
        requires
            self.wf(region@),
        ensures
            idx <= self.positions().len(),
            forall|i: int| 0 <= i < idx ==> before(region@, #[trigger] self.positions()[i], size as nat, pos as int),
            forall|i: int|
                idx <= i < self.positions().len() ==> !before(
                    region@,
                    #[trigger] self.positions()[i],
                    size as nat,
                    pos as int,
                ),
    {
        let mut lo: usize = 0;
        let mut hi: usize = self.blocks.len();
        let ghost p = self.positions();
        while lo < hi
            invariant
                p == self.positions(),
                self.wf(region@),
                lo <= hi <= p.len(),
                p.len() == self.blocks@.len(),
                forall|i: int| 0 <= i < lo ==> before(region@, #[trigger] p[i], size as nat, pos as int),
                forall|i: int| hi <= i < p.len() ==> !before(region@, #[trigger] p[i], size as nat, pos as int),
            decreases hi - lo,
        {
            let mid: usize = lo + (hi - lo) / 2;
            let block = self.blocks[mid];
            assert(p[mid as int] == block.pos);
            let block_size = block.size(region);
            if block_size < size || (block_size == size && block.pos < pos) {
                assert forall|i: int| 0 <= i < mid + 1 implies before(
                    region@,
                    #[trigger] p[i],
                    size as nat,
                    pos as int,
                ) by {
                    if i < mid {
                        assert(key_lt(region@, p[i], p[mid as int]));
                    }
                }
                lo = mid + 1;
            } else {
                assert forall|i: int| mid <= i < p.len() implies !before(
                    region@,
                    #[trigger] p[i],
                    size as nat,
                    pos as int,
                ) by {
                    if mid < i {
                        assert(key_lt(region@, p[mid as int], p[i]));
                    }
                }
                hi = mid;
            }
        }
        lo
    }

    /// Whether the set holds `block`.
    pub fn contains(&self, region: &Region, block: Block) -> (found: bool)
        requires
            self.wf(region@),
        ensures
            found == self@.contains(block.pos as int),
    {
        if block.pos >= region.len() {
            proof {
                let p = self.positions();
                if p.contains(block.pos as int) {
                    let k = choose|k: int| 0 <= k < p.len() && p[k] == block.pos as int;
                    assert(0 <= p[k] < region@.len());
                }
            }
            return false;
        }
        let size = block.size(region);
        let idx = self.lower_bound(region, size, block.pos);
        let ghost p = self.positions();
        if idx < self.blocks.len() {
            let found = self.blocks[idx].pos == block.pos;
            proof {
                assert(p[idx as int] == self.blocks@[idx as int].pos);
                if p.contains(block.pos as int) {
                    let k = choose|k: int| 0 <= k < p.len() && p[k] == block.pos as int;
                    if k < idx {
                        assert(before(region@, p[k], size as nat, block.pos as int));
                    } else if k > idx {
                        assert(key_lt(region@, p[idx as int], p[k]));
                        assert(!before(region@, p[idx as int], size as nat, block.pos as int));
                    }
                }
            }
            found
        } else {
            proof {
                if p.contains(block.pos as int) {
                    let k = choose|k: int| 0 <= k < p.len() && p[k] == block.pos as int;
                    assert(before(region@, p[k], size as nat, block.pos as int));
                }
            }
            false
        }
    }

    /// The blocks of the set, smallest first.
    pub fn iter(&self) -> (blocks: Vec<Block>)
        ensures
            blocks@.len() == self.positions().len(),
            forall|i: int| 0 <= i < blocks@.len() ==> (#[trigger] blocks@[i]).pos == self.positions()[i],
    {
        let mut blocks: Vec<Block> = Vec::new();
        let mut i: usize = 0;
        while i < self.blocks.len()
            invariant
                i <= self.blocks@.len(),
                blocks@.len() == i,
                forall|k: int| 0 <= k < i ==> blocks@[k] == self.blocks@[k],
            decreases self.blocks@.len() - i,
        {
            blocks.push(self.blocks[i]);
            i += 1;
        }
        blocks
    }

    /// Puts `block` into the set. A block that the set already holds stays
    /// in it once.
    pub fn add_block(&mut self, region: &Region, block: Block)
        requires
            old(self).wf(region@),
            block.pos < region@.len(),
        ensures
            final(self).wf(region@),
            final(self)@ == old(self)@.insert(block.pos as int),
            final(self).positions().len() == old(self).positions().len() + (if old(self)@.contains(
                block.pos as int,
            ) {
                0int
            } else {
                1int
            }),
    {
        if self.contains(region, block) {
            assert(self@ =~= self@.insert(block.pos as int));
            return ;
        }
        let size = block.size(region);
        let idx = self.lower_bound(region, size, block.pos);
        let ghost p = self.positions();
        self.blocks.insert(idx, block);
        proof {
            let q = self.positions();
            assert(q =~= p.insert(idx as int, block.pos as int));
            lemma_insert_to_set(p, idx as int, block.pos as int);
            assert forall|i: int, j: int|
                #![trigger q[i], q[j]]
                0 <= i < j < q.len() implies key_lt(region@, q[i], q[j]) by {
                if j < idx {
                    assert(key_lt(region@, p[i], p[j]));
                } else if j == idx {
                    assert(before(region@, p[i], size as nat, block.pos as int));
                } else if i < idx {
                    assert(key_lt(region@, p[i], p[j - 1]));
                } else if i == idx {
                    assert(!before(region@, p[j - 1], size as nat, block.pos as int));
                    assert(p.contains(p[j - 1]));
                } else {
                    assert(key_lt(region@, p[i - 1], p[j - 1]));
                }
            }
            assert forall|i: int| 0 <= i < q.len() implies 0 <= #[trigger] q[i] < region@.len() by {
                if i < idx {
                    assert(q[i] == p[i]);
                } else if i > idx {
                    assert(q[i] == p[i - 1]);
                }
            }
        }
    }

    /// Takes the smallest block of at least `min_size` words out of the set
    /// and returns it; among blocks of that size, the one at the lowest
    /// position.
    pub fn get_block(&mut self, region: &Region, min_size: HalfWord) -> (found: Option<Block>)
        requires
            old(self).wf(region@),
        ensures
            final(self).wf(region@),
            match found {
                Some(block) => {
                    &&& old(self)@.contains(block.pos as int)
                    &&& size_at(region@, block.pos as int) >= min_size
                    &&& forall|q: int|
                        old(self)@.contains(q) && size_at(region@, q) >= min_size ==> key_le(
                            region@,
                            block.pos as int,
                            q,
                        )
                    &&& final(self)@ == old(self)@.remove(block.pos as int)
                    &&& final(self).positions().len() == old(self).positions().len() - 1
                },
                None => {
                    &&& forall|q: int| old(self)@.contains(q) ==> size_at(region@, q) < min_size
                    &&& final(self).positions() == old(self).positions()
                },
            },
    {
        let idx = self.lower_bound(region, min_size, 0);
        let ghost p = self.positions();
        if idx < self.blocks.len() {
            proof {
                self.lemma_distinct(region@);
            }
            let block = self.blocks.remove(idx);
            proof {
                assert(p[idx as int] == block.pos);
                assert(self.positions() =~= p.remove(idx as int));
                self.lemma_removed(region@, p, idx as int);
                assert forall|q: int| p.to_set().contains(q) && size_at(region@, q)
                    >= min_size implies key_le(region@, block.pos as int, q) by {
                    let k = choose|k: int| 0 <= k < p.len() && p[k] == q;
                    if k < idx {
                        assert(before(region@, p[k], min_size as nat, 0));
                    } else if k > idx {
                        assert(key_lt(region@, p[idx as int], p[k]));
                    }
                }
                assert(!before(region@, p[idx as int], min_size as nat, 0));
                assert(p.contains(p[idx as int]));
            }
            Some(block)
        } else {
            proof {
                assert forall|q: int| p.to_set().contains(q) implies size_at(region@, q)
                    < min_size by {
                    let k = choose|k: int| 0 <= k < p.len() && p[k] == q;
                    assert(before(region@, p[k], min_size as nat, 0));
                }
            }
            None
        }
    }

    /// What holds of the set once the block at index `idx` of the earlier
    /// positions `p` has been taken out of its vector.
    proof fn lemma_removed(&self, words: Seq<Word>, p: Seq<int>, idx: int)
        requires
            0 <= idx < p.len(),
            p.no_duplicates(),
            self.positions() == p.remove(idx),
            forall|i: int| 0 <= i < p.len() ==> 0 <= #[trigger] p[i] < words.len(),
            forall|i: int, j: int|
                #![trigger p[i], p[j]]
                0 <= i < j < p.len() ==> key_lt(words, p[i], p[j]),
        ensures
            self.wf(words),
            self@ == p.to_set().remove(p[idx]),
    {
        let q = self.positions();
        lemma_remove_to_set(p, idx);
        assert forall|i: int, j: int|
            #![trigger q[i], q[j]]
            0 <= i < j < q.len() implies key_lt(words, q[i], q[j]) by {
            let a = if i < idx { i } else { i + 1 };
            let b = if j < idx { j } else { j + 1 };
            assert(key_lt(words, p[a], p[b]));
        }
        assert forall|i: int| 0 <= i < q.len() implies 0 <= #[trigger] q[i] < words.len() by {
            let a = if i < idx { i } else { i + 1 };
            assert(q[i] == p[a]);
        }
    }

    /// Takes `block` out of the set. Nothing changes where the set does not
    /// hold it.
    pub fn remove_block(&mut self, region: &Region, block: Block)
        requires
            old(self).wf(region@),
        ensures
            final(self).wf(region@),
            final(self)@ == old(self)@.remove(block.pos as int),
            final(self).positions().len() == old(self).positions().len() - (if old(self)@.contains(
                block.pos as int,
            ) {
                1int
            } else {
                0int
            }),
    {
        if !self.contains(region, block) {
            assert(self@ =~= self@.remove(block.pos as int));
            return ;
        }
        proof {
            let p = self.positions();
            let k = choose|k: int| 0 <= k < p.len() && p[k] == block.pos as int;
            assert(0 <= p[k] < region@.len());
        }
        let size = block.size(region);
        let idx = self.lower_bound(region, size, block.pos);
        let ghost p = self.positions();
        if idx < self.blocks.len() && self.blocks[idx].pos == block.pos {
            proof {
                self.lemma_distinct(region@);
                assert(p[idx as int] == block.pos);
                assert(p.contains(p[idx as int]));
            }
            self.blocks.remove(idx);
            proof {
                assert(self.positions() =~= p.remove(idx as int));
                self.lemma_removed(region@, p, idx as int);
            }
        } else {
            proof {
                if p.contains(block.pos as int) {
                    let k = choose|k: int| 0 <= k < p.len() && p[k] == block.pos as int;
                    if k < idx {
                        assert(before(region@, p[k], size as nat, block.pos as int));
                    } else {
                        assert(idx < p.len());
                        assert(p[idx as int] == self.blocks@[idx as int].pos);
                        assert(!before(region@, p[idx as int], size as nat, block.pos as int));
                        assert(key_lt(region@, p[idx as int], p[k]));
                    }
                }
                assert(self@ =~= self@.remove(block.pos as int));
            }
        }
    }

    /// The number of blocks in the set.
    pub fn len(&self) -> (len: usize)
        ensures
            len == self.positions().len(),
    {
        self.blocks.len()
    }
}

} // verus!
