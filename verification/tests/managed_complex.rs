use managed_heap::address::Address;
use managed_heap::managed::ManagedHeap;
use managed_heap::trace::{GcRoot, Traceable};
use managed_heap::types::Word;

struct MockGcRoot {
    used_elems: Vec<LinkedList>,
}

impl MockGcRoot {
    pub fn new(used_elems: Vec<LinkedList>) -> Self {
        MockGcRoot { used_elems }
    }

    pub fn clear(&mut self) {
        self.used_elems.clear();
    }
}

impl GcRoot<LinkedList> for MockGcRoot {
    fn children(&mut self) -> &mut Vec<LinkedList> {
        &mut self.used_elems
    }
}

#[derive(Copy, Clone)]
struct LinkedList(Address);

impl LinkedList {
    pub fn new(heap: &mut ManagedHeap, value: isize, next: Option<LinkedList>) -> Self {
        // [mark, value, next], one word each
        let address = heap.allocate(3).unwrap();

        heap.write(address, false as Word);
        heap.write(address + 1, value as Word);

        let next: usize = next.map(|n| n.0.into()).unwrap_or(0);
        heap.write(address + 2, next as Word);

        LinkedList(address)
    }

    pub fn next(self, heap: &ManagedHeap) -> Option<LinkedList> {
        let next = heap.read(self.0 + 2);

        if next != 0 {
            let address = Address::from(next as usize);
            Some(LinkedList(address))
        } else {
            None
        }
    }

    pub fn value(self, heap: &ManagedHeap) -> isize {
        heap.read(self.0 + 1) as isize
    }

    pub fn values(self, heap: &ManagedHeap) -> Vec<isize> {
        let mut values = Vec::new();
        let mut current = Some(self);
        while let Some(node) = current {
            values.push(node.value(heap));
            current = node.next(heap);
        }
        values
    }

    pub fn render(self, heap: &ManagedHeap) -> String {
        let string_list: Vec<String> = self
            .values(heap)
            .into_iter()
            .map(|v| format!("{}", v))
            .collect();

        format!("[{}]", string_list.join(", "))
    }
}

impl From<Address> for LinkedList {
    fn from(address: Address) -> Self {
        LinkedList(address)
    }
}

impl From<LinkedList> for Address {
    fn from(list: LinkedList) -> Address {
        list.0
    }
}

impl Traceable for LinkedList {
    fn mark(&mut self, heap: &mut ManagedHeap) {
        heap.write(self.0, true as Word);
        if let Some(mut next) = self.next(heap) {
            next.mark(heap);
        }
    }

    fn unmark(&mut self, heap: &mut ManagedHeap) {
        heap.write(self.0, false as Word);
    }

    fn is_marked(&self, heap: &ManagedHeap) -> bool {
        heap.read(self.0) != 0
    }
}

fn list_of(heap: &mut ManagedHeap, values: &[isize]) -> LinkedList {
    let mut rest: Option<LinkedList> = None;
    for value in values.iter().rev() {
        rest = Some(LinkedList::new(heap, *value, rest));
    }
    rest.unwrap()
}

#[test]
fn test_linked_list_object_constructor() {
    let mut heap = ManagedHeap::new(200);

    let list = LinkedList::new(&mut heap, 3, None);
    assert_eq!(1, heap.num_used_blocks());

    let list = LinkedList::new(&mut heap, 2, Some(list));
    assert_eq!(2, heap.num_used_blocks());

    let list = LinkedList::new(&mut heap, 1, Some(list));
    assert_eq!(3, heap.num_used_blocks());

    let sum: isize = list.values(&heap).into_iter().sum();
    assert_eq!(sum, 6);

    assert_eq!(3, heap.num_used_blocks());
    assert_eq!(1, heap.num_free_blocks());
}

#[test]
fn test_single_linked_list_gets_freed_when_not_marked() {
    let mut heap = ManagedHeap::new(100);
    let list = LinkedList::new(&mut heap, 1, None);
    assert_eq!("[1]", list.render(&heap));

    let mut gc_root = MockGcRoot::new(vec![list]);
    assert_eq!(1, heap.num_used_blocks());
    assert_eq!(1, heap.num_free_blocks());

    {
        let mut roots: Vec<&mut dyn GcRoot<LinkedList>> = vec![&mut gc_root];
        heap.gc(&mut roots[..]);
        assert_eq!(1, heap.num_used_blocks());
        assert_eq!(1, heap.num_free_blocks());
    }

    {
        let mut roots: Vec<&mut dyn GcRoot<LinkedList>> = vec![&mut gc_root];
        heap.gc(&mut roots[..]);
        assert_eq!(1, heap.num_used_blocks());
        assert_eq!(1, heap.num_free_blocks());
    }

    gc_root.clear();
    let mut roots: Vec<&mut dyn GcRoot<LinkedList>> = vec![&mut gc_root];
    heap.gc(&mut roots[..]);
    assert_eq!(0, heap.num_used_blocks());
    assert_eq!(1, heap.num_free_blocks());
}

#[test]
fn test_double_linked_list_gets_freed_when_not_marked() {
    let mut heap = ManagedHeap::new(100);
    let list = list_of(&mut heap, &[1, 2]);
    assert_eq!("[1, 2]", list.render(&heap));

    let mut gc_root = MockGcRoot::new(vec![list]);
    assert_eq!(2, heap.num_used_blocks());
    assert_eq!(1, heap.num_free_blocks());

    {
        let mut roots: Vec<&mut dyn GcRoot<LinkedList>> = vec![&mut gc_root];
        heap.gc(&mut roots[..]);
        assert_eq!(2, heap.num_used_blocks());
        assert_eq!(1, heap.num_free_blocks());
        assert_eq!(false, list.is_marked(&heap));
    }

    {
        let mut roots: Vec<&mut dyn GcRoot<LinkedList>> = vec![&mut gc_root];
        heap.gc(&mut roots[..]);
        assert_eq!(2, heap.num_used_blocks());
        assert_eq!(1, heap.num_free_blocks());
        assert_eq!(false, list.is_marked(&heap));
    }

    gc_root.clear();
    let mut roots: Vec<&mut dyn GcRoot<LinkedList>> = vec![&mut gc_root];
    heap.gc(&mut roots[..]);
    assert_eq!(0, heap.num_used_blocks());
    assert_eq!(1, heap.num_free_blocks());
}

#[test]
fn test_triple_linked_list_gets_freed_when_not_marked() {
    let mut heap = ManagedHeap::new(1000);
    let list = list_of(&mut heap, &[1, 2, 3]);

    assert_eq!("[1, 2, 3]", list.render(&heap));

    let mut gc_root = MockGcRoot::new(vec![list]);
    assert_eq!(3, heap.num_used_blocks());
    assert_eq!(1, heap.num_free_blocks());

    {
        let mut roots: Vec<&mut dyn GcRoot<LinkedList>> = vec![&mut gc_root];
        heap.gc(&mut roots[..]);
        assert_eq!(3, heap.num_used_blocks());
        assert_eq!(1, heap.num_free_blocks());
    }

    {
        let mut roots: Vec<&mut dyn GcRoot<LinkedList>> = vec![&mut gc_root];
        heap.gc(&mut roots[..]);
        assert_eq!(3, heap.num_used_blocks());
        assert_eq!(1, heap.num_free_blocks());
    }

    gc_root.clear();
    let mut roots: Vec<&mut dyn GcRoot<LinkedList>> = vec![&mut gc_root];
    heap.gc(&mut roots[..]);
    assert_eq!(0, heap.num_used_blocks());
    assert_eq!(1, heap.num_free_blocks());
}

#[test]
fn collected_list_keeps_its_values_and_links() {
    let mut heap = ManagedHeap::new(1000);
    let garbage = list_of(&mut heap, &[7, 8]);
    let list = list_of(&mut heap, &[1, 2, 3]);
    assert_eq!(5, heap.num_used_blocks());

    let mut gc_root = MockGcRoot::new(vec![list]);
    let mut roots: Vec<&mut dyn GcRoot<LinkedList>> = vec![&mut gc_root];
    heap.gc(&mut roots[..]);

    assert_eq!(3, heap.num_used_blocks());
    assert_eq!(2, heap.num_free_blocks());
    assert_eq!("[1, 2, 3]", list.render(&heap));
    assert!(!heap.is_allocated(garbage.0));
    let mut node = Some(list);
    while let Some(n) = node {
        assert_eq!(false, n.is_marked(&heap));
        node = n.next(&heap);
    }
}

#[test]
fn mark_roots_marks_the_whole_list_behind_a_root() {
    let mut heap = ManagedHeap::new(1000);
    let other = list_of(&mut heap, &[7, 8]);
    let list = list_of(&mut heap, &[1, 2, 3]);

    let mut gc_root = MockGcRoot::new(vec![list]);
    let mut roots: Vec<&mut dyn GcRoot<LinkedList>> = vec![&mut gc_root];
    heap.mark_roots(&mut roots[..]);

    let mut node = Some(list);
    while let Some(n) = node {
        assert_eq!(true, n.is_marked(&heap));
        node = n.next(&heap);
    }
    let mut node = Some(other);
    while let Some(n) = node {
        assert_eq!(false, n.is_marked(&heap));
        node = n.next(&heap);
    }
    assert_eq!(5, heap.num_used_blocks());
    assert_eq!("[1, 2, 3]", list.render(&heap));
    assert_eq!("[7, 8]", other.render(&heap));
}
