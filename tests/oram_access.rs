use oram::block::Block;
use oram::error::OramError;
use oram::oram::{Op, PathORAM};
use oram::stats::{sequential_read_stash_sizes, stash_tail};

#[test]
fn test_basic_write_and_read() {
    let num_blocks = 4;
    let bucket_capacity = 4;
    let mut oram = PathORAM::new(num_blocks, bucket_capacity).unwrap();

    let block_id = 1;
    let new_data = 42;
    oram.access(Op::Write, block_id, Some(new_data)).unwrap();

    let read_data = oram.access(Op::Read, block_id, None).unwrap();
    assert_eq!(read_data, new_data);
}

#[test]
fn test_stash_grows_unbounded() {
    let num_blocks: u32 = 1 << 5;
    let bucket_capacity = 2;
    let warmup_accesses: u32 = 10000;
    let total_accesses: u32 = 10000 + warmup_accesses;

    let mut oram = PathORAM::new(num_blocks, bucket_capacity).unwrap();

    let mut stash_sizes: Vec<u32> = vec![0; total_accesses as usize];

    for access_count in 0..total_accesses {
        let block_id = (access_count % num_blocks) + 1;
        oram.access(Op::Read, block_id, None).unwrap();

        if access_count >= warmup_accesses {
            let stash_size = oram.stash.len();
            stash_sizes[stash_size] += 1;
        }
    }

    let mut stash_data: Vec<(i32, u32)> = Vec::new();
    let mut running_sum = stash_sizes.iter().sum::<u32>();
    stash_data.push((-1_i32, total_accesses - warmup_accesses));

    for i in 0..(stash_sizes.len() as i32) {
        stash_data.push((i, running_sum));
        running_sum -= stash_sizes[i as usize];
    }

    for (i, count) in stash_sizes.iter().enumerate() {
        if count > &0 {
            println!("{},{}", i, count);
        }
    }

    for (i, count) in stash_data {
        if count > 0 {
            println!("{},{}", i, count);
        }
    }
}

#[test]
fn two_writes_then_two_reads() {
    let mut oram = PathORAM::new(4, 4).unwrap();
    assert_eq!(oram.access(Op::Write, 1, Some(42)), Ok(0));
    assert_eq!(oram.access(Op::Write, 2, Some(7)), Ok(0));
    assert_eq!(oram.access(Op::Read, 1, None), Ok(42));
    assert_eq!(oram.access(Op::Read, 2, None), Ok(7));
}

#[test]
fn write_returns_previous_payload() {
    let mut oram = PathORAM::new(8, 3).unwrap();
    assert_eq!(oram.access(Op::Write, 5, Some(11)), Ok(0));
    assert_eq!(oram.access(Op::Write, 5, Some(12)), Ok(11));
    assert_eq!(oram.access(Op::Read, 5, None), Ok(12));
}

#[test]
fn read_survives_other_accesses() {
    let mut oram = PathORAM::new(16, 2).unwrap();
    oram.access(Op::Write, 3, Some(99)).unwrap();
    for i in 0..500u32 {
        let id = (i % 16) + 1;
        if id != 3 {
            oram.access(Op::Write, id, Some(i)).unwrap();
        }
    }
    assert_eq!(oram.access(Op::Read, 3, None), Ok(99));
}

#[test]
fn every_block_starts_at_zero() {
    let mut oram = PathORAM::new(10, 2).unwrap();
    for id in 1..=10u32 {
        assert_eq!(oram.access(Op::Read, id, None), Ok(0));
    }
}

#[test]
fn two_reads_agree() {
    let mut oram = PathORAM::new(4, 4).unwrap();
    oram.access(Op::Write, 2, Some(5)).unwrap();
    let first = oram.access(Op::Read, 2, None).unwrap();
    let second = oram.access(Op::Read, 2, None).unwrap();
    assert_eq!(first, 5);
    assert_eq!(first, second);
}

#[test]
fn unknown_block_ids() {
    let mut oram = PathORAM::new(4, 4).unwrap();
    assert_eq!(oram.access(Op::Read, 0, None), Err(OramError::UnknownBlock));
    assert_eq!(oram.access(Op::Read, 5, None), Err(OramError::UnknownBlock));
    assert_eq!(oram.access(Op::Write, 5, Some(1)), Err(OramError::UnknownBlock));
    assert_eq!(oram.position(0), Err(OramError::UnknownBlock));
    assert_eq!(oram.position(5), Err(OramError::UnknownBlock));
    assert_eq!(oram.access(Op::Read, 4, None), Ok(0));
}

#[test]
fn invalid_configurations() {
    assert!(matches!(PathORAM::new(0, 4), Err(OramError::InvalidConfiguration)));
    assert!(matches!(PathORAM::new(4, 0), Err(OramError::InvalidConfiguration)));
    assert!(matches!(PathORAM::new(0x8000_0001, 4), Err(OramError::InvalidConfiguration)));
}

#[test]
fn tree_shape_for_block_counts() {
    let oram = PathORAM::new(4, 4).unwrap();
    assert_eq!(oram.tree_height, 2);
    assert_eq!(oram.tree.len(), 7);
    for bucket in &oram.tree {
        assert_eq!(bucket.blocks.len(), 4);
    }
    let oram = PathORAM::new(5, 2).unwrap();
    assert_eq!(oram.tree_height, 3);
    assert_eq!(oram.tree.len(), 15);
    let mut oram = PathORAM::new(1, 1).unwrap();
    assert_eq!(oram.tree_height, 0);
    assert_eq!(oram.tree.len(), 1);
    assert_eq!(oram.access(Op::Read, 1, None), Ok(0));
}

#[test]
fn access_moves_block_to_given_leaf() {
    let mut oram = PathORAM::new(8, 4).unwrap();
    assert_eq!(oram.access_with_leaf(Op::Write, 6, Some(3), 5), Ok(0));
    assert_eq!(oram.position(6), Ok(5));
    assert_eq!(oram.access_with_leaf(Op::Read, 6, None, 2), Ok(3));
    assert_eq!(oram.position(6), Ok(2));
}

#[test]
fn placement_after_many_accesses() {
    let mut oram = PathORAM::new(8, 2).unwrap();
    for i in 0..300u32 {
        oram.access(Op::Write, (i % 8) + 1, Some(i)).unwrap();
    }
    let height = oram.tree_height;
    for id in 1..=8u32 {
        let leaf = oram.position(id).unwrap();
        let in_stash = oram.stash.iter().filter(|b| b.block_id == id).count();
        let mut in_tree = 0;
        for (index, bucket) in oram.tree.iter().enumerate() {
            for block in &bucket.blocks {
                if block.block_id == id {
                    in_tree += 1;
                    let level = (0..=height).find(|l| index + 1 >= (1usize << l) && index + 1 < (1usize << (l + 1))).unwrap();
                    let on_path = (1usize << level) - 1 + (leaf >> (height - level)) as usize;
                    assert_eq!(index, on_path);
                }
            }
        }
        assert_eq!(in_stash + in_tree, 1);
    }
    for bucket in &oram.tree {
        assert_eq!(bucket.blocks.len(), 2);
    }
}

#[test]
fn stash_size_matches_stash() {
    let mut oram = PathORAM::new(32, 1).unwrap();
    for i in 0..200u32 {
        oram.access(Op::Read, (i % 32) + 1, None).unwrap();
        assert_eq!(oram.stash_size(), oram.stash.len());
        assert!(oram.stash.iter().all(|b: &Block| b.block_id != 0));
    }
}

#[test]
fn stash_tail_of_given_sizes() {
    let tail = stash_tail(&vec![0, 2, 1, 2, 0, 5]);
    assert_eq!(tail.accesses, 6);
    assert_eq!(tail.exceeding, vec![4, 3, 1, 1, 1]);
    let tail = stash_tail(&vec![0, 0]);
    assert_eq!(tail.accesses, 2);
    assert!(tail.exceeding.is_empty());
    let tail = stash_tail(&vec![]);
    assert_eq!(tail.accesses, 0);
    assert!(tail.exceeding.is_empty());
}

#[test]
fn stash_tail_of_sequential_reads() {
    let mut oram = PathORAM::new(32, 2).unwrap();
    let sizes = sequential_read_stash_sizes(&mut oram, 3000, 3000);
    assert_eq!(sizes.len(), 3000);
    let tail = stash_tail(&sizes);
    assert_eq!(tail.accesses, 3000);
    for pair in tail.exceeding.windows(2) {
        assert!(pair[0] >= pair[1]);
    }
    for (r, count) in tail.exceeding.iter().enumerate() {
        assert_eq!(*count, sizes.iter().filter(|s| **s > r).count());
        assert!(*count > 0);
    }
    for id in 1..=32u32 {
        assert_eq!(oram.access(Op::Read, id, None), Ok(0));
    }
}

#[test]
fn fresh_leaves_stay_in_range_and_vary() {
    let mut oram = PathORAM::new(4, 4).unwrap();
    let leaves = 1u32 << oram.tree_height;
    assert_eq!(leaves, 4);
    let mut seen = [0u32; 4];
    let mut changed = 0;
    for _ in 0..400 {
        let before = oram.position(3).unwrap();
        oram.access(Op::Read, 3, None).unwrap();
        let after = oram.position(3).unwrap();
        assert!(after < leaves);
        seen[after as usize] += 1;
        if after != before {
            changed += 1;
        }
    }
    assert!(seen.iter().all(|c| *c > 0));
    assert!(changed > 0);
    for id in 1..=4u32 {
        assert!(oram.position(id).unwrap() < leaves);
    }
}
