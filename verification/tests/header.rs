use managed_heap::block::header::BlockHeader;
use std::cmp::Ordering;

#[test]
fn block_test_block_header_new() {
    let header = BlockHeader::new(14, 42);
    assert_eq!(42, header.block_size());
    assert_eq!(14, header.pred_block_size());
}

#[test]
fn block_test_block_header_change_sizes() {
    let mut header = BlockHeader::new(42, 42);
    assert_eq!(42, header.block_size());
    assert_eq!(42, header.pred_block_size());

    header.set_size(10);
    assert_eq!(10, header.block_size());
    assert_eq!(42, header.pred_block_size());

    header.inc_size(2);
    assert_eq!(12, header.block_size());
    assert_eq!(42, header.pred_block_size());

    header.set_pred_size(5);
    assert_eq!(12, header.block_size());
    assert_eq!(5, header.pred_block_size());
}

#[test]
fn mod_test_block_header_new() {
    let header = BlockHeader::new(14, 42);
    assert_eq!(42, header.block_size());
    assert_eq!(14, header.pred_block_size());
}

#[test]
fn mod_test_block_header_change_sizes() {
    let mut header = BlockHeader::new(42, 42);
    assert_eq!(42, header.block_size());
    assert_eq!(42, header.pred_block_size());

    header.set_size(10);
    assert_eq!(10, header.block_size());
    assert_eq!(42, header.pred_block_size());

    header.inc_size(2);
    assert_eq!(12, header.block_size());
    assert_eq!(42, header.pred_block_size());

    header.set_pred_size(5);
    assert_eq!(12, header.block_size());
    assert_eq!(5, header.pred_block_size());
}

#[test]
fn header_word_holds_own_size_low_and_pred_size_high() {
    let header = BlockHeader::new(14, 42);
    assert_eq!((14u64 << 32) | 42, header.0);
    let header = BlockHeader::new(u32::MAX, 1);
    assert_eq!(0xFFFF_FFFF_0000_0001, header.0);
    let header = BlockHeader::new(0, u32::MAX);
    assert_eq!(0x0000_0000_FFFF_FFFF, header.0);
}

#[test]
fn header_mutators_keep_the_other_half() {
    let mut header = BlockHeader::new(u32::MAX, u32::MAX);
    header.set_size(0);
    assert_eq!(0xFFFF_FFFF_0000_0000, header.0);
    header.inc_size(7);
    assert_eq!(0xFFFF_FFFF_0000_0007, header.0);
    header.set_pred_size(0);
    assert_eq!(7, header.0);
    header.set_pred_size(3);
    assert_eq!((3u64 << 32) | 7, header.0);
}

#[test]
fn headers_compare_by_own_size_alone() {
    let small = BlockHeader::new(9, 3);
    let same = BlockHeader::new(1, 3);
    let large = BlockHeader::new(0, 4);

    assert!(small == same);
    assert!(small != large);
    assert_eq!(Some(Ordering::Equal), small.partial_cmp(&same));
    assert_eq!(Some(Ordering::Less), small.partial_cmp(&large));
    assert_eq!(Some(Ordering::Greater), large.partial_cmp(&small));
    assert!(small < large);
    assert!(large >= same);
}

#[test]
fn header_converts_to_its_raw_word() {
    use_word(BlockHeader::new(14, 42), (14u64 << 32) | 42);
    use_word(BlockHeader::new(0, 1), 1);
}

fn use_word(header: BlockHeader, expected: u64) {
    let word: u64 = header.into();
    assert_eq!(expected, word);
    assert_eq!(expected, u64::from(header));
}
