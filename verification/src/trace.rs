//! What a client brings to a collection: objects that can be marked, and
//! roots that say which objects are in use.

use vstd::prelude::*;
use vstd::std_specs::convert::FromSpec;
use crate::types::Word;
use crate::address::Address;
use crate::layout::HeapView;
use crate::managed::ManagedHeap;

verus! {

/// An object that lives in the payload of a used block and keeps its mark
/// there. The heap reserves no mark bit: where in the payload the mark is
/// kept is the client's convention.
pub trait Traceable: Sized {
    /// The address of the payload that the object lives in. A type that
    /// does not say where its objects live has them at no block's payload.
    open spec fn address(&self) -> Address {
        Address { ptr: 0 }
    }

    /// Whether `payload` is that of a marked object. Unless a type says
    /// otherwise, the mark is the first payload word, and zero is unmarked.
    open spec fn marked(payload: Seq<Word>) -> bool {
        payload.len() > 0 && payload[0] != 0
    }

    /// Whether a payload of `len` words has room for an object of this type
    /// and its mark. Unless a type says otherwise, one word is enough.
    open spec fn room(len: nat) -> bool {
        len > 0
    }

    /// Whether `marking` and `unmarking` tell what `mark` and `unmark`
    /// leave of a heap. A type that does not say so tells nothing.
    open spec fn traced() -> bool {
        false
    }

    /// The heap that marking this object leaves of `heap`.
    open spec fn marking(&self, heap: HeapView) -> HeapView {
        heap
    }

    /// The heap that unmarking this object leaves of `heap`.
    open spec fn unmarking(&self, heap: HeapView) -> HeapView {
        heap
    }

    /// Marks the object and every object that it refers to. Marking may
    /// write to the payloads of used blocks, and to nothing else: it leaves
    /// all blocks as they are, and neither allocates nor releases.
    /// Afterwards the object is marked, where it lives in a used block that
    /// has room for it, and no object has lost its mark.
    fn mark(&mut self, heap: &mut ManagedHeap)
        requires
            old(heap).wf(),
        ensures
            final(heap).wf(),
            final(heap)@.same_blocks(old(heap)@),
            final(heap)@.same_outside_payloads(old(heap)@),
            Self::traced() ==> final(heap)@ == old(self).marking(old(heap)@),
            old(heap)@.used.contains(old(self).address().ptr - 1) && Self::room(
                old(heap)@.payload(old(self).address().ptr - 1).len(),
            ) ==> Self::marked(final(heap)@.payload(old(self).address().ptr - 1)),
            forall|p: int|
                old(heap)@.used.contains(p) && Self::marked(#[trigger] old(heap)@.payload(p))
                    ==> Self::marked(final(heap)@.payload(p)),
    ;

    /// Unmarks this object, and touches nothing outside its payload.
    fn unmark(&mut self, heap: &mut ManagedHeap)
        requires
            old(heap).wf(),
            old(heap)@.used.contains(old(self).address().ptr - 1),
        ensures
            final(heap).wf(),
            final(heap)@.same_blocks(old(heap)@),
            forall|w: int|
                0 <= w < old(heap)@.size() && !(old(self).address().ptr <= w < old(heap)@.block_end(
                    old(self).address().ptr - 1,
                )) ==> #[trigger] final(heap)@.words[w] == old(heap)@.words[w],
            !Self::marked(final(heap)@.payload(old(self).address().ptr - 1)),
            Self::traced() ==> final(heap)@ == old(self).unmarking(old(heap)@),
    ;

    /// Whether the object is marked.
    fn is_marked(&self, heap: &ManagedHeap) -> (marked: bool)
        requires
            heap.wf(),
            heap@.used.contains(self.address().ptr - 1),
        ensures
            marked == Self::marked(heap@.payload(self.address().ptr - 1)),
    ;
}

/// Whether the object at `address` is marked in the heap `after`, if it
/// lived in a used block of the heap `before` that has room for it.
pub open spec fn holds_marked<T: Traceable>(
    before: HeapView,
    address: Address,
    after: HeapView,
) -> bool {
    before.used.contains(address.ptr - 1) && T::room(before.payload(address.ptr - 1).len())
        ==> T::marked(after.payload(address.ptr - 1))
}

/// Whether every used block whose object is marked in the heap `before` has
/// its object marked in the heap `after`.
pub open spec fn keeps_marks<T: Traceable>(before: HeapView, after: HeapView) -> bool {
    forall|p: int|
        before.used.contains(p) && T::marked(#[trigger] before.payload(p)) ==> T::marked(
            after.payload(p),
        )
}

/// The heap that marking `objects`, one after the other, leaves of `heap`.
pub open spec fn marked_each<T: Traceable>(heap: HeapView, objects: Seq<T>) -> HeapView
    decreases objects.len(),
{
    if objects.len() == 0 {
        heap
    } else {
        objects.last().marking(marked_each(heap, objects.drop_last()))
    }
}

/// The heap that marking the objects of each list in turn leaves of `heap`.
pub open spec fn marked_all<T: Traceable>(heap: HeapView, lists: Seq<Seq<T>>) -> HeapView
    decreases lists.len(),
{
    if lists.len() == 0 {
        heap
    } else {
        marked_each(marked_all(heap, lists.drop_last()), lists.last())
    }
}

/// Whether none of `lists` holds an object.
pub open spec fn none_held<T>(lists: Seq<Seq<T>>) -> bool {
    forall|r: int| 0 <= r < lists.len() ==> (#[trigger] lists[r]).len() == 0
}

/// Whether each of `roots` tells its objects.
pub open spec fn listed_all<T: Traceable + From<Address> + Into<Address>>(
    roots: Seq<&mut dyn GcRoot<T>>,
) -> bool {
    forall|r: int| 0 <= r < roots.len() ==> #[trigger] roots[r].listed()
}

/// The objects that each of `roots` holds on to.
pub open spec fn held<T: Traceable + From<Address> + Into<Address>>(
    roots: Seq<&mut dyn GcRoot<T>>,
) -> Seq<Seq<T>> {
    Seq::new(roots.len(), |r: int| roots[r].objects())
}

/// Whether the objects of type `T` can be told from their addresses: the
/// object made from an address lives at that address.
pub open spec fn faithful<T: Traceable + From<Address>>() -> bool {
    &&& T::obeys_from_spec()
    &&& forall|a: Address| #[trigger] T::from_spec(a).address() == a
}

/// A provider of roots: the objects that the client holds on to.
pub trait GcRoot<I: Traceable + From<Address> + Into<Address>> {
    /// Whether `objects` tells what `children` yields. A type that does not
    /// say so tells nothing.
    open spec fn listed(&self) -> bool {
        false
    }

    /// The objects that the root holds on to.
    open spec fn objects(&self) -> Seq<I> {
        Seq::empty()
    }

    /// The objects that are in use: those that the root holds on to, where
    /// it tells them.
    fn children(&mut self) -> (children: &mut Vec<I>)
        ensures
            old(self).listed() ==> children@ == old(self).objects(),
    ;
}

} // verus!
