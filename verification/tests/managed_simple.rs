use managed_heap::address::Address;
use managed_heap::managed::ManagedHeap;
use managed_heap::trace::{GcRoot, Traceable};
use managed_heap::types::Word;

struct MockGcRoot {
    used_elems: Vec<IntegerObject>,
}

impl MockGcRoot {
    pub fn new(used_elems: Vec<IntegerObject>) -> Self {
        MockGcRoot { used_elems }
    }

    pub fn clear(&mut self) {
        self.used_elems.clear();
    }
}

impl GcRoot<IntegerObject> for MockGcRoot {
    fn children(&mut self) -> &mut Vec<IntegerObject> {
        &mut self.used_elems
    }
}

#[derive(Debug)]
struct IntegerObject(Address);

impl IntegerObject {
    pub fn new(heap: &mut ManagedHeap, value: isize) -> Self {
        // reserve one word for the mark
        let address = heap.allocate(2).unwrap();

        heap.write(address, false as Word);
        heap.write(address + 1, value as Word);

        IntegerObject(address)
    }

    pub fn get(&self, heap: &ManagedHeap) -> isize {
        heap.read(self.0 + 1) as isize
    }
}

impl From<Address> for IntegerObject {
    fn from(address: Address) -> Self {
        IntegerObject(address)
    }
}

impl From<IntegerObject> for Address {
    fn from(object: IntegerObject) -> Address {
        object.0
    }
}

impl Traceable for IntegerObject {
    fn mark(&mut self, heap: &mut ManagedHeap) {
        heap.write(self.0, true as Word);
    }

    fn unmark(&mut self, heap: &mut ManagedHeap) {
        heap.write(self.0, false as Word);
    }

    fn is_marked(&self, heap: &ManagedHeap) -> bool {
        heap.read(self.0) != 0
    }
}

#[test]
fn test_integer_object_constructor() {
    let mut heap = ManagedHeap::new(100);
    let mut i = IntegerObject::new(&mut heap, -42);

    assert_eq!(-42, i.get(&heap));
    assert_eq!(false, i.is_marked(&heap));

    i.mark(&mut heap);
    assert_eq!(true, i.is_marked(&heap));
}

#[test]
fn test_integer_gets_freed_when_not_marked() {
    let mut heap = ManagedHeap::new(100);
    let i = IntegerObject::new(&mut heap, 42);

    let mut gc_root = MockGcRoot::new(vec![i]);
    assert_eq!(1, heap.num_used_blocks());
    assert_eq!(1, heap.num_free_blocks());

    {
        let mut roots: Vec<&mut dyn GcRoot<IntegerObject>> = vec![&mut gc_root];
        heap.gc(&mut roots[..]);
        assert_eq!(1, heap.num_used_blocks());
        assert_eq!(1, heap.num_free_blocks());
    }

    {
        let mut roots: Vec<&mut dyn GcRoot<IntegerObject>> = vec![&mut gc_root];
        heap.gc(&mut roots[..]);
        assert_eq!(1, heap.num_used_blocks());
        assert_eq!(1, heap.num_free_blocks());
    }

    gc_root.clear();
    let mut roots: Vec<&mut dyn GcRoot<IntegerObject>> = vec![&mut gc_root];
    heap.gc(&mut roots[..]);
    assert_eq!(0, heap.num_used_blocks());
    assert_eq!(1, heap.num_free_blocks());
}

#[test]
fn integer_object_survives_collection_unmarked_and_intact() {
    let mut heap = ManagedHeap::new(100);
    let i = IntegerObject::new(&mut heap, 42);
    let address = i.0;

    let mut gc_root = MockGcRoot::new(vec![i]);
    let mut roots: Vec<&mut dyn GcRoot<IntegerObject>> = vec![&mut gc_root];
    heap.gc(&mut roots[..]);

    let survivor = IntegerObject::from(address);
    assert!(heap.is_allocated(address));
    assert_eq!(42, survivor.get(&heap));
    assert_eq!(false, survivor.is_marked(&heap));
}

#[test]
fn collection_with_several_roots_keeps_what_any_of_them_holds() {
    let mut heap = ManagedHeap::new(400);
    let a = IntegerObject::new(&mut heap, 1);
    let b = IntegerObject::new(&mut heap, 2);
    let c = IntegerObject::new(&mut heap, 3);
    let (a_at, b_at, c_at) = (a.0, b.0, c.0);

    let mut first = MockGcRoot::new(vec![a]);
    let mut second = MockGcRoot::new(vec![c]);
    drop(b);
    let mut roots: Vec<&mut dyn GcRoot<IntegerObject>> = vec![&mut first, &mut second];
    heap.gc(&mut roots[..]);

    assert!(heap.is_allocated(a_at));
    assert!(!heap.is_allocated(b_at));
    assert!(heap.is_allocated(c_at));
    assert_eq!(2, heap.num_used_blocks());
    // the hole between the two survivors, and the rest of the region
    assert_eq!(2, heap.num_free_blocks());
    assert_eq!(1, IntegerObject::from(a_at).get(&heap));
    assert_eq!(3, IntegerObject::from(c_at).get(&heap));
}

#[test]
fn unmarked_lists_exactly_the_unmarked_objects() {
    let mut heap = ManagedHeap::new(400);
    let mut a = IntegerObject::new(&mut heap, 1);
    let b = IntegerObject::new(&mut heap, 2);
    a.mark(&mut heap);

    let addresses = heap.unmarked::<IntegerObject>();
    assert_eq!(vec![b.0], addresses);

    heap.sweep::<IntegerObject>();
    assert!(heap.is_allocated(a.0));
    assert!(!heap.is_allocated(b.0));
    assert_eq!(true, a.is_marked(&heap));

    heap.unmark_all::<IntegerObject>();
    assert_eq!(false, a.is_marked(&heap));
    assert_eq!(1, a.get(&heap));
}

#[test]
fn managed_heap_allocates_like_the_raw_heap() {
    let mut heap = ManagedHeap::new(4096);
    assert_eq!(0, heap.num_used_blocks());
    assert_eq!(1, heap.num_free_blocks());

    let a = heap.allocate(10).unwrap();
    let b = heap.allocate(0).unwrap();
    assert_eq!(Address::from(1usize), a);
    assert_eq!(Address::from(12usize), b);
    assert_eq!(10, heap.payload_size(a));
    assert_eq!(0, heap.payload_size(b));
    assert!(heap.is_allocated(a));
    assert!(!heap.is_allocated(a + 1));
    assert!(!heap.is_allocated(Address::from(0usize)));
    assert!(!heap.is_allocated(Address::from(usize::MAX)));
    assert_eq!(None, heap.allocate(512));
    assert_eq!(2, heap.num_used_blocks());
    assert_eq!(1, heap.num_free_blocks());
}

#[test]
fn collection_without_roots_releases_everything() {
    let mut heap = ManagedHeap::new(4096);
    for value in 0..20 {
        IntegerObject::new(&mut heap, value);
    }
    assert_eq!(20, heap.num_used_blocks());

    let mut roots: Vec<&mut dyn GcRoot<IntegerObject>> = vec![];
    heap.gc(&mut roots[..]);
    assert_eq!(0, heap.num_used_blocks());
    assert_eq!(1, heap.num_free_blocks());
    // fully coalesced: the whole region can be had again
    assert!(heap.allocate(511).is_some());
}

#[test]
fn mark_roots_marks_what_the_roots_hold_and_nothing_else() {
    let mut heap = ManagedHeap::new(400);
    let a = IntegerObject::new(&mut heap, 1);
    let mut b = IntegerObject::new(&mut heap, 2);
    let c = IntegerObject::new(&mut heap, 3);
    let d = IntegerObject::new(&mut heap, 4);
    let (a_at, c_at) = (a.0, c.0);
    b.mark(&mut heap);

    let mut first = MockGcRoot::new(vec![a]);
    let mut second = MockGcRoot::new(vec![c]);
    let mut roots: Vec<&mut dyn GcRoot<IntegerObject>> = vec![&mut first, &mut second];
    heap.mark_roots(&mut roots[..]);

    // every object that a root yields is marked
    assert_eq!(true, IntegerObject::from(a_at).is_marked(&heap));
    assert_eq!(true, IntegerObject::from(c_at).is_marked(&heap));
    // no mark is lost, none is made up
    assert_eq!(true, b.is_marked(&heap));
    assert_eq!(false, d.is_marked(&heap));
    // the blocks are as they were, and so are the values
    assert_eq!(4, heap.num_used_blocks());
    assert_eq!(1, heap.num_free_blocks());
    assert_eq!(1, IntegerObject::from(a_at).get(&heap));
    assert_eq!(2, b.get(&heap));
    assert_eq!(3, IntegerObject::from(c_at).get(&heap));
    assert_eq!(4, d.get(&heap));
}

#[test]
fn mark_roots_without_roots_changes_nothing() {
    let mut heap = ManagedHeap::new(400);
    let a = IntegerObject::new(&mut heap, 1);

    let mut roots: Vec<&mut dyn GcRoot<IntegerObject>> = vec![];
    heap.mark_roots(&mut roots[..]);
    assert_eq!(false, a.is_marked(&heap));

    let mut empty = MockGcRoot::new(vec![]);
    let mut roots: Vec<&mut dyn GcRoot<IntegerObject>> = vec![&mut empty];
    heap.mark_roots(&mut roots[..]);
    assert_eq!(false, a.is_marked(&heap));
    assert_eq!(1, a.get(&heap));
    assert_eq!(1, heap.num_used_blocks());
}

fn words_of(heap: &ManagedHeap, size: usize) -> Vec<Word> {
    (0..size).map(|at| heap.read(Address::from(at))).collect()
}

#[test]
fn second_collection_with_the_same_roots_changes_nothing() {
    let mut heap = ManagedHeap::new(400);
    let a = IntegerObject::new(&mut heap, 1);
    let b = IntegerObject::new(&mut heap, 2);
    let c = IntegerObject::new(&mut heap, 3);
    drop(b);
    let mut gc_root = MockGcRoot::new(vec![a, c]);

    let mut roots: Vec<&mut dyn GcRoot<IntegerObject>> = vec![&mut gc_root];
    heap.gc(&mut roots[..]);
    let words = words_of(&heap, 50);
    let (used, free) = (heap.num_used_blocks(), heap.num_free_blocks());
    assert_eq!((2, 2), (used, free));

    let mut roots: Vec<&mut dyn GcRoot<IntegerObject>> = vec![&mut gc_root];
    heap.gc(&mut roots[..]);
    assert_eq!(words, words_of(&heap, 50));
    assert_eq!((used, free), (heap.num_used_blocks(), heap.num_free_blocks()));
}

#[test]
fn collection_with_cleared_roots_leaves_one_free_block() {
    let mut heap = ManagedHeap::new(100);
    let i = IntegerObject::new(&mut heap, 42);
    let mut gc_root = MockGcRoot::new(vec![i]);
    let mut roots: Vec<&mut dyn GcRoot<IntegerObject>> = vec![&mut gc_root];
    heap.gc(&mut roots[..]);

    gc_root.clear();
    let mut roots: Vec<&mut dyn GcRoot<IntegerObject>> = vec![&mut gc_root];
    heap.gc(&mut roots[..]);
    assert_eq!(0, heap.num_used_blocks());
    assert_eq!(1, heap.num_free_blocks());
    // the one free block spans the region: its header says 12 words, no predecessor
    assert_eq!(12, heap.read(Address::from(0usize)));
    assert!(heap.allocate(11).is_some());
}
