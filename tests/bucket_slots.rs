use oram::block::Block;
use oram::bucket::Bucket;
use oram::error::OramError;
use oram::tree_index::{bucket_index_exec, tree_height_for};

fn blk(block_id: u32, data: u32) -> Block {
    Block { block_id, data }
}

#[test]
fn new_bucket_holds_dummies() {
    let bucket = Bucket::new(3);
    assert_eq!(bucket.capacity, 3);
    assert_eq!(bucket.get_all_blocks(), vec![Block::dummy(); 3]);
    assert_eq!(Bucket::new(0).get_all_blocks(), vec![]);
}

#[test]
fn add_block_drops_oldest_when_full() {
    let mut bucket = Bucket::new(2);
    bucket.add_block(blk(1, 10));
    assert_eq!(bucket.get_all_blocks(), vec![Block::dummy(), blk(1, 10)]);
    bucket.add_block(blk(2, 20));
    bucket.add_block(blk(3, 30));
    assert_eq!(bucket.get_all_blocks(), vec![blk(2, 20), blk(3, 30)]);
    let mut empty = Bucket::new(0);
    empty.add_block(blk(1, 1));
    assert!(empty.get_all_blocks().is_empty());
}

#[test]
fn get_block_finds_first_slot() {
    let mut bucket = Bucket::new(3);
    bucket.add_block(blk(4, 1));
    bucket.add_block(blk(4, 2));
    assert_eq!(bucket.get_block(4), Some(&blk(4, 1)));
    assert_eq!(bucket.get_block(9), None);
    assert_eq!(bucket.get_block(0), Some(&Block::dummy()));
}

#[test]
fn replace_blocks_pads_with_dummies() {
    let mut bucket = Bucket::new(4);
    let r = bucket.replace_blocks(vec![Block::dummy(), blk(2, 5), blk(7, 1)]);
    assert_eq!(r, Ok(()));
    assert_eq!(bucket.get_all_blocks(), vec![blk(2, 5), blk(7, 1), Block::dummy(), Block::dummy()]);
}

#[test]
fn replace_blocks_rejects_overflow() {
    let mut bucket = Bucket::new(2);
    bucket.replace_blocks(vec![blk(1, 1)]).unwrap();
    let r = bucket.replace_blocks(vec![blk(2, 2), blk(3, 3), blk(4, 4)]);
    assert_eq!(r, Err(OramError::InvalidConfiguration));
    assert_eq!(bucket.get_all_blocks(), vec![blk(1, 1), Block::dummy()]);
    let r = bucket.replace_blocks(vec![blk(2, 2), Block::dummy(), blk(3, 3), Block::dummy()]);
    assert_eq!(r, Ok(()));
    assert_eq!(bucket.get_all_blocks(), vec![blk(2, 2), blk(3, 3)]);
}

#[test]
fn heights_and_indices() {
    assert_eq!(tree_height_for(1), 0);
    assert_eq!(tree_height_for(2), 1);
    assert_eq!(tree_height_for(4), 2);
    assert_eq!(tree_height_for(5), 3);
    assert_eq!(tree_height_for(1 << 20), 20);
    assert_eq!(tree_height_for(0x8000_0000), 31);
    assert_eq!(bucket_index_exec(5, 0, 3), 0);
    assert_eq!(bucket_index_exec(5, 1, 3), 2);
    assert_eq!(bucket_index_exec(5, 2, 3), 5);
    assert_eq!(bucket_index_exec(5, 3, 3), 12);
    assert_eq!(bucket_index_exec(0, 3, 3), 7);
}
