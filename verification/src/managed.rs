//! The managed heap: a heap with a mark-and-sweep collector.

use vstd::prelude::*;
use crate::types::{HalfWord, Word, HALF_WORD_MAX, WORD_SIZE};
use crate::address::Address;
use crate::block::Block;
use crate::block::header::pack;
use crate::block::set::{ascending, key_lt, lemma_push_contains};
use crate::heap::{Heap, heads, positions_of};
use crate::layout::HeapView;
use vstd::std_specs::convert::FromSpec;
use crate::trace::{
    GcRoot, Traceable, faithful, held, holds_marked, keeps_marks, listed_all, marked_all,
    marked_each, none_held,
};

verus! {

/// The object of type `T` that lives in the block at `p`.
pub open spec fn object_at<T: Traceable + From<Address>>(p: int) -> T {
    T::from_spec(Address { ptr: (p + 1) as usize })
}

/// The heap that unmarking the objects of the blocks at `order`, one after
/// the other, leaves of `heap`.
pub open spec fn unmarked_each<T: Traceable + From<Address>>(
    heap: HeapView,
    order: Seq<int>,
) -> HeapView
    decreases order.len(),
{
    if order.len() == 0 {
        heap
    } else {
        object_at::<T>(order.last()).unmarking(unmarked_each::<T>(heap, order.drop_last()))
    }
}

/// Whether `order` lists the used blocks of `heap`, each once, the smallest
/// block first: the order in which their objects are unmarked.
pub open spec fn survivors(heap: HeapView, order: Seq<int>) -> bool {
    &&& order.no_duplicates()
    &&& order.to_set() == heap.used
    &&& ascending(heap.words, order)
}

/// What unmarking the object of every used block does to a heap. The blocks
/// stay as they are, and so does every word that is not a payload word of a
/// used block. Where the objects tell what unmarking leaves, the heap is
/// what unmarking them one by one leaves.
pub open spec fn unmarked_from<T: Traceable + From<Address>>(
    before: HeapView,
    after: HeapView,
) -> bool {
    &&& after.same_blocks(before)
    &&& after.same_outside_payloads(before)
    &&& T::traced() ==> exists|left: Seq<int>| #[trigger]
        survivors(before, left) && after == unmarked_each::<T>(before, left)
}

/// What sweeping and then unmarking does to the heap `marking`: the used
/// blocks whose objects are not marked are released, the smallest first, and
/// the objects that are left are unmarked.
pub open spec fn swept_from<T: Traceable + From<Address>>(
    marking: HeapView,
    after: HeapView,
) -> bool {
    exists|released: Seq<int>| #[trigger]
        swept::<T>(marking, released) && unmarked_from::<T>(
            marking.after_free_all(released),
            after,
        )
}

/// What a collection does to a heap. `marking` is the heap as the roots
/// have left it when they are done with marking: it differs from the heap
/// `before` in payloads of used blocks only, and has every mark that was
/// there before. The heap `after` the collection is what sweeping and
/// unmarking leaves of it: its used blocks are those whose objects were
/// marked then. Where all of them were, the collection has released
/// nothing, and only payloads of used blocks have changed.
pub open spec fn collected<T: Traceable + From<Address>>(
    before: HeapView,
    marking: HeapView,
    after: HeapView,
) -> bool {
    &&& marking.same_blocks(before)
    &&& marking.same_outside_payloads(before)
    &&& keeps_marks::<T>(before, marking)
    &&& swept_from::<T>(marking, after)
    &&& after.used == Set::new(
        |p: int| before.used.contains(p) && T::marked(marking.payload(p)),
    )
    &&& (forall|p: int| before.used.contains(p) ==> T::marked(marking.payload(p)))
        ==> after.same_blocks(before) && after.same_outside_payloads(before)
}

/// A collection in which the roots mark every used object releases nothing:
/// the free and the used blocks and their headers are as before, and so is
/// every word that is not a payload word of a used block. That is what a
/// second collection comes to, where the roots mark again all that the
/// first one has left.
pub proof fn lemma_collection_without_garbage<T: Traceable + From<Address>>(
    before: HeapView,
    marking: HeapView,
    after: HeapView,
)
    requires
        collected::<T>(before, marking, after),
        forall|p: int| before.used.contains(p) ==> T::marked(marking.payload(p)),
    ensures
        after.used == before.used,
        after.free == before.free,
        after.same_blocks(before),
        after.same_outside_payloads(before),
{
}

/// Whether the block of the object at `address` is still used in the heap
/// `after`, if it was a used block of the heap `before` that has room for
/// the object.
pub open spec fn survives<T: Traceable>(
    before: HeapView,
    address: Address,
    after: HeapView,
) -> bool {
    before.used.contains(address.ptr - 1) && T::room(before.payload(address.ptr - 1).len())
        ==> after.used.contains(address.ptr - 1)
}

/// Whether `order` lists the used blocks of `before` whose objects are not
/// marked, each once, the smallest block first: the order in which a sweep
/// releases them.
pub open spec fn swept<T: Traceable>(before: HeapView, order: Seq<int>) -> bool {
    &&& order.no_duplicates()
    &&& order.to_set() == Set::new(
        |p: int| before.used.contains(p) && !T::marked(before.payload(p)),
    )
    &&& ascending(before.words, order)
}

/// Marks that are kept from one heap to a second, and from the second to a
/// third, are kept from the first to the third, where the heaps have the
/// same blocks.
pub proof fn lemma_marks_carry<T: Traceable>(first: HeapView, second: HeapView, third: HeapView)
    requires
        second.same_blocks(first),
        keeps_marks::<T>(first, second),
        keeps_marks::<T>(second, third),
    ensures
        keeps_marks::<T>(first, third),
{
    assert forall|p: int|
        first.used.contains(p) && T::marked(#[trigger] first.payload(p)) implies T::marked(
        third.payload(p),
    ) by {
        assert(second.used.contains(p));
        assert(T::marked(second.payload(p)));
    }
}

/// A virtual heap that can be garbage collected by calling `gc`.
pub struct ManagedHeap {
    heap: Heap,
}

impl View for ManagedHeap {
    type V = HeapView;

    closed spec fn view(&self) -> HeapView {
        self.heap@
    }
}

impl ManagedHeap {
    /// Whether the heap's bookkeeping is in order.
    pub closed spec fn ordered(&self) -> bool {
        self.heap.ordered()
    }

    /// Whether the heap is well-formed.
    pub open spec fn wf(&self) -> bool {
        &&& self@.wf()
        &&& self.ordered()
    }

    /// A heap over a fresh region of `size` bytes.
    pub fn new(size: usize) -> (heap: ManagedHeap)
        requires
            WORD_SIZE <= size,
            size / WORD_SIZE <= HALF_WORD_MAX,
        ensures
            heap.wf(),
            heap@.size() == size / WORD_SIZE,
            heap@.free == set![0int],
            heap@.used == Set::<int>::empty(),
            heap@.block_size(0) == size / WORD_SIZE,
            heap@.words == Seq::new((size / WORD_SIZE) as nat, |i: int| 0u64).update(
                0,
                pack(0, (size / WORD_SIZE) as nat) as Word,
            ),
    {
        ManagedHeap { heap: Heap::new(size) }
    }

    /// The number of used blocks.
    pub fn num_used_blocks(&self) -> (count: usize)
        requires
            self.wf(),
        ensures
            self@.used.finite(),
            count == self@.used.len(),
    {
        self.heap.num_used_blocks()
    }

    /// The number of free blocks.
    pub fn num_free_blocks(&self) -> (count: usize)
        requires
            self.wf(),
        ensures
            self@.free.finite(),
            count == self@.free.len(),
    {
        self.heap.num_free_blocks()
    }

    /// Allocates a block with room for `size` payload words and returns the
    /// address of its payload. The block is taken from the smallest free
    /// block that is large enough; where that one has more than two words to
    /// spare, it is split and the rest stays free. Nothing is returned, and
    /// nothing changes, exactly when no free block has `size + 1` words.
    pub fn allocate(&mut self, size: HalfWord) -> (address: Option<Address>)
        requires
            old(self).wf(),
        ensures
            final(self).wf(),
            match address {
                Some(a) => {
                    &&& a.ptr >= 1
                    &&& old(self)@.is_first_fit(a.ptr - 1, size as nat + 1)
                    &&& final(self)@ == old(self)@.after_alloc(a.ptr - 1, size as nat + 1)
                    &&& final(self)@.block_size(a.ptr - 1) >= size + 1
                    &&& final(self)@.used.contains(a.ptr - 1)
                },
                None => {
                    &&& !old(self)@.fits(size as nat + 1)
                    &&& final(self)@ == old(self)@
                },
            },
    {
        self.heap.allocate(size)
    }

    /// The word at `address`.
    pub fn read(&self, address: Address) -> (word: Word)
        requires
            self.wf(),
            address.ptr < self@.size(),
        ensures
            word == self@.words[address.ptr as int],
    {
        self.heap.read(address)
    }

    /// Stores `value` in the payload word at `address`. No header changes,
    /// and no other payload word.
    pub fn write(&mut self, address: Address, value: Word)
        requires
            old(self).wf(),
            old(self)@.owns(address.ptr as int),
        ensures
            final(self).wf(),
            final(self)@ == (HeapView {
                words: old(self)@.words.update(address.ptr as int, value),
                ..old(self)@
            }),
            final(self)@.same_blocks(old(self)@),
    {
        self.heap.write(address, value)
    }

    /// Whether `address` is that of a used block's payload.
    pub fn is_allocated(&self, address: Address) -> (used: bool)
        requires
            self.wf(),
        ensures
            used == (address.ptr >= 1 && self@.used.contains(address.ptr - 1)),
    {
        if address.ptr == 0 {
            false
        } else {
            self.heap.is_used(Block::from(address))
        }
    }

    /// The number of payload words of the used block whose payload starts at
    /// `address`.
    pub fn payload_size(&self, address: Address) -> (size: HalfWord)
        requires
            self.wf(),
            address.ptr >= 1,
            self@.used.contains(address.ptr - 1),
        ensures
            size == self@.block_size(address.ptr - 1) - 1,
            size == self@.payload(address.ptr - 1).len(),
    {
        proof {
            assert(self@.is_block(address.ptr - 1));
            assert(self@.block_ok(address.ptr - 1));
        }
        Block::from(address).size(self.heap.region()) - 1
    }

    /// Marks every object that the roots hold on to: calls `mark` on each
    /// object that each root yields, in turn. Only payloads of used blocks
    /// change. Where the roots tell their objects, every such object that
    /// lives in a used block with room for it is marked afterwards; where
    /// the objects also tell what marking leaves, the heap is what marking
    /// them one by one leaves; and where no root holds an object, the heap
    /// is as it was. No object loses its mark.
    pub fn mark_roots<T>(&mut self, roots: &mut [&mut dyn GcRoot<T>])
        where
            T: Traceable + From<Address> + Into<Address>,
        requires
            old(self).wf(),
        ensures
            final(self).wf(),
            final(self)@.same_blocks(old(self)@),
            final(self)@.same_outside_payloads(old(self)@),
            keeps_marks::<T>(old(self)@, final(self)@),
            forall|r: int, c: int|
                0 <= r < old(roots)@.len() && old(roots)@[r].listed() && 0 <= c < old(
                    roots,
                )@[r].objects().len() ==> holds_marked::<T>(
                    old(self)@,
                    (#[trigger] old(roots)@[r].objects()[c]).address(),
                    final(self)@,
                ),
            listed_all(old(roots)@) && T::traced() ==> final(self)@ == marked_all(
                old(self)@,
                held(old(roots)@),
            ),
            listed_all(old(roots)@) && none_held(held(old(roots)@)) ==> final(self)@ == old(
                self,
            )@,
    {
        let ghost before = self@;
        let ghost holders = roots@;
        let ghost lists = held(holders);
        let mut r: usize = 0;
        assert(lists.take(0) =~= Seq::<Seq<T>>::empty());
        while r < roots.len()
            invariant
                r <= roots@.len(),
                roots@.len() == holders.len(),
                lists == held(holders),
                forall|k: int| r <= k < holders.len() ==> roots@[k] == holders[k],
                self.wf(),
                self@.same_blocks(before),
                self@.same_outside_payloads(before),
                keeps_marks::<T>(before, self@),
                forall|k: int, c: int|
                    0 <= k < r && holders[k].listed() && 0 <= c < holders[k].objects().len()
                        ==> holds_marked::<T>(
                        before,
                        (#[trigger] holders[k].objects()[c]).address(),
                        self@,
                    ),
                listed_all(holders) && T::traced() ==> self@ == marked_all(
                    before,
                    lists.take(r as int),
                ),
                listed_all(holders) && none_held(lists) ==> self@ == before,
            decreases roots.len() - r,
        {
            let ghost listed = holders[r as int].listed();
            let ghost objects = holders[r as int].objects();
            let ghost entered = self@;
            proof {
                assert(lists[r as int] == objects);
                assert(objects.take(0) =~= Seq::<T>::empty());
            }
            let children = roots[r].children();
            let mut c: usize = 0;
            while c < children.len()
                invariant
                    c <= children@.len(),
                    0 <= r < lists.len(),
                    lists[r as int] == objects,
                    lists == held(holders),
                    listed == holders[r as int].listed(),
                    listed ==> children@.len() == objects.len(),
                    listed ==> forall|k: int| c <= k < objects.len() ==> children@[k] == objects[k],
                    self.wf(),
                    self@.same_blocks(before),
                    self@.same_blocks(entered),
                    self@.same_outside_payloads(before),
                    keeps_marks::<T>(before, self@),
                    keeps_marks::<T>(entered, self@),
                    listed ==> forall|k: int|
                        0 <= k < c ==> holds_marked::<T>(
                            before,
                            (#[trigger] objects[k]).address(),
                            self@,
                        ),
                    listed && T::traced() ==> self@ == marked_each(entered, objects.take(c as int)),
                    listed_all(holders) && none_held(lists) ==> self@ == before,
                decreases children.len() - c,
            {
                let ghost step = self@;
                let ghost object = children@[c as int];
                proof {
                    if listed_all(holders) && none_held(lists) {
                        assert(holders[r as int].listed());
                        assert(lists[r as int].len() == 0);
                    }
                }
                children[c].mark(self);
                proof {
                    self@.lemma_same_blocks_trans(step, before);
                    self@.lemma_same_blocks_trans(step, entered);
                    self@.lemma_same_outside_trans(step, before);
                    lemma_marks_carry::<T>(before, step, self@);
                    lemma_marks_carry::<T>(entered, step, self@);
                    if listed {
                        assert(object == objects[c as int]);
                        assert(objects.take(c + 1).drop_last() =~= objects.take(c as int));
                        assert(objects.take(c + 1).last() == objects[c as int]);
                        assert forall|k: int| 0 <= k < c + 1 implies holds_marked::<T>(
                            before,
                            (#[trigger] objects[k]).address(),
                            self@,
                        ) by {
                            let at = objects[k].address().ptr - 1;
                            if before.used.contains(at) && T::room(before.payload(at).len()) {
                                if k == c {
                                    step.lemma_same_payload_len(before, at);
                                    assert(holds_marked::<T>(step, object.address(), self@));
                                } else {
                                    assert(holds_marked::<T>(before, objects[k].address(), step));
                                    assert(step.used.contains(at));
                                    assert(T::marked(step.payload(at)));
                                }
                            }
                        }
                    }
                }
                c += 1;
            }
            proof {
                let left = self@;
                if listed {
                    assert(objects.take(c as int) =~= objects);
                }
                assert(lists.take(r + 1).drop_last() =~= lists.take(r as int));
                assert(lists.take(r + 1).last() == objects);
                if listed_all(holders) {
                    assert(holders[r as int].listed());
                }
                assert forall|k: int, c: int|
                    0 <= k < r + 1 && holders[k].listed() && 0 <= c < holders[k].objects().len()
                    implies holds_marked::<T>(
                    before,
                    (#[trigger] holders[k].objects()[c]).address(),
                    left,
                ) by {
                    let at = holders[k].objects()[c].address().ptr - 1;
                    if k < r {
                        assert(holds_marked::<T>(
                            before,
                            holders[k].objects()[c].address(),
                            entered,
                        ));
                        if before.used.contains(at) && T::room(before.payload(at).len()) {
                            assert(entered.used.contains(at));
                            assert(T::marked(entered.payload(at)));
                        }
                    } else {
                        assert(holds_marked::<T>(before, objects[c].address(), left));
                    }
                }
            }
            r += 1;
        }
        assert(lists.take(r as int) =~= lists);
    }

    /// The addresses of the used blocks whose objects are not marked, each
    /// once, smallest block first.
    pub fn unmarked<T>(&self) -> (addresses: Vec<Address>)
        where
            T: Traceable + From<Address> + Into<Address>,
        requires
            self.wf(),
            faithful::<T>(),
        ensures
            heads(addresses@).no_duplicates(),
            heads(addresses@).to_set() == Set::new(
                |p: int| self@.used.contains(p) && !T::marked(self@.payload(p)),
            ),
            ascending(self@.words, heads(addresses@)),
    {
        let used = self.heap.used();
        let ghost positions = positions_of(used@);
        let mut addresses: Vec<Address> = Vec::new();
        let mut i: usize = 0;
        while i < used.len()
            invariant
                i <= used@.len(),
                self.wf(),
                faithful::<T>(),
                positions == positions_of(used@),
                positions.no_duplicates(),
                positions.to_set() == self@.used,
                ascending(self@.words, positions),
                heads(addresses@).no_duplicates(),
                heads(addresses@).to_set() == Set::new(
                    |p: int|
                        positions.take(i as int).contains(p) && !T::marked(self@.payload(p)),
                ),
                ascending(self@.words, heads(addresses@)),
                forall|a: int, k: int|
                    #![trigger heads(addresses@)[a], positions[k]]
                    0 <= a < addresses@.len() && i <= k < positions.len() ==> key_lt(
                        self@.words,
                        heads(addresses@)[a],
                        positions[k],
                    ),
            decreases used@.len() - i,
        {
            let block = used[i];
            let ghost p = block.pos as int;
            proof {
                assert(positions[i as int] == p);
                assert(positions.contains(p));
                assert(self@.is_block(p));
                assert(self@.block_ok(p));
            }
            let address = Address::from(block);
            let object = T::from(address);
            let ghost earlier = heads(addresses@);
            let ghost seen = positions.take(i as int);
            proof {
                assert(positions.take(i + 1) =~= seen.push(p));
                if seen.contains(p) {
                    let k = choose|k: int| 0 <= k < seen.len() && seen[k] == p;
                    assert(positions[k] == positions[i as int]);
                }
            }
            if !object.is_marked(self) {
                addresses.push(address);
                proof {
                    let later = heads(addresses@);
                    assert(later =~= earlier.push(p));
                    assert forall|a: int, k: int|
                        #![trigger later[a], positions[k]]
                        0 <= a < later.len() && i + 1 <= k < positions.len() implies key_lt(
                        self@.words,
                        later[a],
                        positions[k],
                    ) by {
                        if a == earlier.len() {
                            assert(key_lt(self@.words, positions[i as int], positions[k]));
                        } else {
                            assert(later[a] == earlier[a]);
                        }
                    }
                    assert forall|a: int, b: int|
                        #![trigger later[a], later[b]]
                        0 <= a < b < later.len() implies key_lt(self@.words, later[a], later[b]) by {
                        if b == earlier.len() {
                            assert(later[a] == earlier[a]);
                            assert(key_lt(self@.words, earlier[a], positions[i as int]));
                        } else {
                            assert(later[a] == earlier[a]);
                            assert(later[b] == earlier[b]);
                        }
                    }
                    earlier.lemma_push_to_set_commute(p);
                    assert(!earlier.to_set().contains(p));
                    assert(later.no_duplicates()) by {
                        assert forall|a: int, b: int|
                            0 <= a < later.len() && 0 <= b < later.len() && a != b implies later[a]
                            != later[b] by {
                            if a == earlier.len() {
                                assert(earlier.contains(earlier[b]));
                            } else if b == earlier.len() {
                                assert(earlier.contains(earlier[a]));
                            }
                        }
                    }
                    assert(later.to_set() =~= Set::new(
                        |q: int|
                            positions.take(i + 1).contains(q) && !T::marked(self@.payload(q)),
                    )) by {
                        lemma_push_contains(seen, p);
                    }
                }
            } else {
                proof {
                    assert(earlier.to_set() =~= Set::new(
                        |q: int|
                            positions.take(i + 1).contains(q) && !T::marked(self@.payload(q)),
                    )) by {
                        lemma_push_contains(seen, p);
                    }
                }
            }
            i += 1;
        }
        proof {
            assert(positions.take(i as int) =~= positions);
            assert(heads(addresses@).to_set() =~= Set::new(
                |p: int| self@.used.contains(p) && !T::marked(self@.payload(p)),
            ));
        }
        addresses
    }

    /// Releases every used block whose object is not marked. The marked ones
    /// stay as they are.
    pub fn sweep<T>(&mut self)
        where
            T: Traceable + From<Address> + Into<Address>,
        requires
            old(self).wf(),
            faithful::<T>(),
        ensures
            final(self).wf(),
            exists|order: Seq<int>| #[trigger]
                swept::<T>(old(self)@, order) && final(self)@ == old(self)@.after_free_all(
                    order,
                ),
            final(self)@.used == Set::new(
                |p: int| old(self)@.used.contains(p) && T::marked(old(self)@.payload(p)),
            ),
            forall|q: int| #[trigger]
                final(self)@.used.contains(q) ==> final(self)@.block_size(q) == old(
                    self,
                )@.block_size(q) && final(self)@.payload(q) == old(self)@.payload(q),
            (forall|p: int| old(self)@.used.contains(p) ==> T::marked(old(self)@.payload(p)))
                ==> final(self)@ == old(self)@,
    {
        let ghost before = self@;
        let freeable = self.unmarked::<T>();
        proof {
            let doomed = heads(freeable@);
            assert forall|i: int| 0 <= i < doomed.len() implies before.used.contains(
                #[trigger] doomed[i],
            ) by {
                assert(doomed.to_set().contains(doomed[i]));
            }
            if forall|p: int| before.used.contains(p) ==> T::marked(before.payload(p)) {
                if doomed.len() > 0 {
                    assert(doomed.to_set().contains(doomed[0]));
                }
            }
        }
        self.heap.free_all(&freeable);
        proof {
            assert(self@.used =~= Set::new(
                |p: int| before.used.contains(p) && T::marked(before.payload(p)),
            ));
            assert(swept::<T>(before, heads(freeable@)));
        }
    }

    /// Unmarks the object of every used block, the smallest block first.
    /// Nothing but payloads of used blocks changes.
    pub fn unmark_all<T>(&mut self)
        where
            T: Traceable + From<Address> + Into<Address>,
        requires
            old(self).wf(),
            faithful::<T>(),
        ensures
            final(self).wf(),
            unmarked_from::<T>(old(self)@, final(self)@),
            final(self)@.same_blocks(old(self)@),
            final(self)@.same_outside_payloads(old(self)@),
            forall|p: int| #[trigger]
                final(self)@.used.contains(p) ==> !T::marked(final(self)@.payload(p)),
    {
        let ghost before = self@;
        let used = self.heap.used();
        let ghost positions = positions_of(used@);
        let mut i: usize = 0;
        assert(positions.take(0) =~= Seq::<int>::empty());
        while i < used.len()
            invariant
                i <= used@.len(),
                self.wf(),
                faithful::<T>(),
                self@.same_blocks(before),
                self@.same_outside_payloads(before),
                ascending(before.words, positions),
                T::traced() ==> self@ == unmarked_each::<T>(before, positions.take(i as int)),
                positions == positions_of(used@),
                positions.no_duplicates(),
                positions.to_set() == before.used,
                forall|k: int|
                    0 <= k < i ==> !T::marked(self@.payload(#[trigger] positions[k])),
            decreases used@.len() - i,
        {
            let block = used[i];
            let ghost p = block.pos as int;
            let ghost step = self@;
            proof {
                assert(positions[i as int] == p);
                assert(positions.contains(p));
                assert(step.is_block(p));
                assert(step.block_ok(p));
            }
            let address = Address::from(block);
            let mut object = T::from(address);
            object.unmark(self);
            proof {
                self@.lemma_same_blocks_trans(step, before);
                assert(self@.same_outside_payloads(step)) by {
                    assert forall|w: int| 0 <= w < step.words.len() && !step.owns(w) implies
                        #[trigger] self@.words[w] == step.words[w] by {
                        if address.ptr <= w < step.block_end(p) {
                            assert(step.used.contains(p) && p < w < step.block_end(p));
                        }
                    }
                }
                self@.lemma_same_outside_trans(step, before);
                assert(positions.take(i + 1).drop_last() =~= positions.take(i as int));
                assert(positions.take(i + 1).last() == p);
                assert(object_at::<T>(p) == T::from_spec(address));
                assert forall|k: int| 0 <= k < i + 1 implies !T::marked(
                    self@.payload(#[trigger] positions[k]),
                ) by {
                    let q = positions[k];
                    if k < i {
                        assert(positions.contains(q));
                        assert(step.is_block(q));
                        assert(step.block_ok(q));
                        assert(self@.is_block(q));
                        if q < p {
                            step.lemma_no_overlap(q, p);
                        } else {
                            step.lemma_no_overlap(p, q);
                        }
                        assert(self@.payload(q) =~= step.payload(q));
                    }
                }
            }
            i += 1;
        }
        proof {
            assert forall|p: int| #[trigger] self@.used.contains(p) implies !T::marked(
                self@.payload(p),
            ) by {
                assert(positions.to_set().contains(p));
                let k = choose|k: int| 0 <= k < positions.len() && positions[k] == p;
                assert(!T::marked(self@.payload(positions[k])));
            }
            assert(positions.take(i as int) =~= positions);
            assert(survivors(before, positions));
        }
    }

    /// Runs the mark-and-sweep collector. The roots mark the objects that
    /// are in use and all that these refer to; then every used block whose
    /// object is not marked is released; then the objects that are left are
    /// unmarked again. The objects that a root yields are among those that
    /// are left, where the root tells its objects. The heap that the sweep
    /// starts from is the heap as it was, where no root holds an object, and
    /// what marking the roots' objects one by one leaves, where roots and
    /// objects tell that.
    pub fn gc<T>(&mut self, roots: &mut [&mut dyn GcRoot<T>])
        where
            T: Traceable + From<Address> + Into<Address>,
        requires
            old(self).wf(),
            faithful::<T>(),
        ensures
            final(self).wf(),
            exists|marking: HeapView| collected::<T>(old(self)@, marking, final(self)@),
            listed_all(old(roots)@) && T::traced() ==> collected::<T>(
                old(self)@,
                marked_all(old(self)@, held(old(roots)@)),
                final(self)@,
            ),
            listed_all(old(roots)@) && none_held(held(old(roots)@)) ==> collected::<T>(
                old(self)@,
                old(self)@,
                final(self)@,
            ),
            forall|r: int, c: int|
                0 <= r < old(roots)@.len() && old(roots)@[r].listed() && 0 <= c < old(
                    roots,
                )@[r].objects().len() ==> survives::<T>(
                    old(self)@,
                    (#[trigger] old(roots)@[r].objects()[c]).address(),
                    final(self)@,
                ),
            forall|p: int| #[trigger]
                final(self)@.used.contains(p) ==> final(self)@.block_size(p) == old(
                    self,
                )@.block_size(p),
            forall|p: int| #[trigger]
                final(self)@.used.contains(p) ==> !T::marked(final(self)@.payload(p)),
    {
        let ghost before = self@;
        let ghost holders = roots@;
        self.mark_roots(roots);
        let ghost marking = self@;
        self.sweep::<T>();
        let ghost cleared = self@;
        self.unmark_all::<T>();
        proof {
            assert(marking.same_blocks(before));
            assert(self@.used =~= Set::new(
                |p: int| before.used.contains(p) && T::marked(marking.payload(p)),
            ));
            if forall|p: int| before.used.contains(p) ==> T::marked(marking.payload(p)) {
                assert(cleared == marking);
                self@.lemma_same_blocks_trans(marking, before);
                self@.lemma_same_outside_trans(marking, before);
            }
            let released = choose|released: Seq<int>| #[trigger]
                swept::<T>(marking, released) && cleared == marking.after_free_all(released);
            assert(unmarked_from::<T>(marking.after_free_all(released), self@));
            assert(swept_from::<T>(marking, self@));
            assert(collected::<T>(before, marking, self@));
            assert forall|r: int, c: int|
                0 <= r < holders.len() && holders[r].listed() && 0 <= c
                    < holders[r].objects().len() implies survives::<T>(
                before,
                (#[trigger] holders[r].objects()[c]).address(),
                self@,
            ) by {
                assert(holds_marked::<T>(before, holders[r].objects()[c].address(), marking));
            }
            assert forall|p: int| #[trigger] self@.used.contains(p) implies self@.block_size(p)
                == before.block_size(p) by {
                assert(cleared.used.contains(p));
                assert(self@.is_block(p));
                assert(marking.is_block(p));
            }
        }
    }
}

} // verus!
