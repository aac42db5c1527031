use managed_heap::block::set::BlockSet;
use managed_heap::block::Block;
use managed_heap::region::Region;

fn positions(set: &BlockSet) -> Vec<usize> {
    set.iter().into_iter().map(|b| b.pos).collect()
}

// blocks of sizes 4, 2, 4, 6 at 0, 4, 6, 10
fn region_with_four_blocks() -> Region {
    let mut region = Region::new(16);
    Block::new(&mut region, 0, 4, 0);
    Block::new(&mut region, 4, 2, 4);
    Block::new(&mut region, 6, 4, 2);
    Block::new(&mut region, 10, 6, 4);
    region
}

#[test]
fn from_raw_makes_one_block_without_predecessor() {
    let mut region = Region::new(9);
    let set = BlockSet::from_raw(&mut region, 0, 9);
    assert_eq!(1, set.len());
    assert_eq!(vec![0], positions(&set));
    let block = Block { pos: 0 };
    assert!(set.contains(&region, block));
    assert_eq!(9, block.size(&region));
    assert_eq!(0, block.pred_size(&region));
}

#[test]
fn set_is_ordered_by_size_then_position() {
    let region = region_with_four_blocks();
    let mut set = BlockSet::default();
    assert_eq!(0, set.len());
    for pos in [10, 6, 0, 4] {
        set.add_block(&region, Block { pos });
    }
    assert_eq!(4, set.len());
    assert_eq!(vec![4, 0, 6, 10], positions(&set));
}

#[test]
fn adding_a_block_twice_keeps_it_once() {
    let region = region_with_four_blocks();
    let mut set = BlockSet::default();
    set.add_block(&region, Block { pos: 6 });
    set.add_block(&region, Block { pos: 6 });
    assert_eq!(1, set.len());
    assert_eq!(vec![6], positions(&set));
}

#[test]
fn contains_goes_by_identity_not_by_size() {
    let region = region_with_four_blocks();
    let mut set = BlockSet::default();
    set.add_block(&region, Block { pos: 0 });
    assert!(set.contains(&region, Block { pos: 0 }));
    // same size, other place
    assert!(!set.contains(&region, Block { pos: 6 }));
    assert!(!set.contains(&region, Block { pos: 4 }));
}

#[test]
fn get_block_takes_the_smallest_that_is_large_enough() {
    let region = region_with_four_blocks();
    let mut set = BlockSet::default();
    for pos in [0, 4, 6, 10] {
        set.add_block(&region, Block { pos });
    }

    // sizes 3 and 4 are both served by a block of 4: the one at the lower position
    assert_eq!(Some(Block { pos: 0 }), set.get_block(&region, 3));
    assert_eq!(Some(Block { pos: 6 }), set.get_block(&region, 4));
    assert_eq!(vec![4, 10], positions(&set));

    assert_eq!(None, set.get_block(&region, 7));
    assert_eq!(vec![4, 10], positions(&set));

    assert_eq!(Some(Block { pos: 4 }), set.get_block(&region, 0));
    assert_eq!(Some(Block { pos: 10 }), set.get_block(&region, 6));
    assert_eq!(None, set.get_block(&region, 0));
    assert_eq!(0, set.len());
}

#[test]
fn remove_block_takes_out_that_block_only() {
    let region = region_with_four_blocks();
    let mut set = BlockSet::default();
    for pos in [0, 4, 10] {
        set.add_block(&region, Block { pos });
    }

    // absent: nothing happens
    set.remove_block(&region, Block { pos: 6 });
    assert_eq!(vec![4, 0, 10], positions(&set));

    set.remove_block(&region, Block { pos: 0 });
    assert_eq!(vec![4, 10], positions(&set));
    set.remove_block(&region, Block { pos: 10 });
    set.remove_block(&region, Block { pos: 4 });
    assert_eq!(0, set.len());
    set.remove_block(&region, Block { pos: 4 });
    assert_eq!(0, set.len());
}

#[test]
fn a_block_outside_the_region_is_in_no_set() {
    let region = region_with_four_blocks();
    let mut set = BlockSet::default();
    set.add_block(&region, Block { pos: 10 });
    assert!(!set.contains(&region, Block { pos: 16 }));
    assert!(!set.contains(&region, Block { pos: usize::MAX }));
    set.remove_block(&region, Block { pos: 16 });
    assert_eq!(vec![10], positions(&set));
}
