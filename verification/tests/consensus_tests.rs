use etch::consensus::Consensus;
use etch::storage::BlockStorage;
use etch::types::{Block, BlockHeader, Difficulty, Payload};

fn make_block(prev_hash: [u8; 32], timestamp: u64, nonce: u64) -> Block {
    Block {
        header: BlockHeader {
            previous_hash: prev_hash,
            timestamp,
            miner_address: [0u8; 32],
            difficulty_vote: 0,
            payload_count: 0,
            merkle_root: [0u8; 32],
        },
        nonce,
        payloads: vec![],
    }
}

#[test]
fn test_validate_genesis() {
    let storage = BlockStorage::new();
    let genesis = make_block([0u8; 32], 1_700_000_000, 0);
    let diff = Difficulty::genesis();
    let result = Consensus::validate_block(&genesis, &storage, &diff);
    assert!(result.is_ok());
}

#[test]
fn test_validate_bad_pow() {
    let mut storage = BlockStorage::new();
    let genesis = make_block([0u8; 32], 1_700_000_000, 0);
    let genesis_hash = genesis.hash();
    storage.store_block(&genesis, 0);
    let mut block = make_block(genesis_hash, 1_700_000_010, 0);
    block.header.miner_address = [1u8; 32];
    let diff = Difficulty::genesis();
    let result = Consensus::validate_block(&block, &storage, &diff);
    assert!(result.is_err());
}

#[test]
fn test_validate_future_timestamp() {
    let storage = BlockStorage::new();
    let mut block = make_block([0u8; 32], u64::MAX, 0);
    block.header.miner_address = [0u8; 32];
    let diff = Difficulty::genesis();
    let result = Consensus::validate_block(&block, &storage, &diff);
    assert!(result.is_err());
}

#[test]
fn test_cumulative_work_genesis() {
    let mut storage = BlockStorage::new();
    let genesis = make_block([0u8; 32], 1_700_000_000, 0);
    let hash = genesis.hash();
    storage.store_block(&genesis, 0);
    let work = Consensus::cumulative_work(&storage, &hash, &Difficulty::genesis());
    assert!(work > 0);
}

#[test]
fn test_adjust_target_increase() {
    let target = [0x00u8, 0x00, 0x10, 0x00, 0x00, 0x00, 0x00, 0x00,
                  0x00, 0x00, 0x00, 0x00, 0x00, 0x00, 0x00, 0x00,
                  0x00, 0x00, 0x00, 0x00, 0x00, 0x00, 0x00, 0x00,
                  0x00, 0x00, 0x00, 0x00, 0x00, 0x00, 0x00, 0x00];
    let new_target = Consensus::adjust_target(&target, 90);
    assert!(new_target < target);
}

#[test]
fn test_adjust_target_decrease() {
    let target = [0x00u8, 0x00, 0x10, 0x00, 0x00, 0x00, 0x00, 0x00,
                  0x00, 0x00, 0x00, 0x00, 0x00, 0x00, 0x00, 0x00,
                  0x00, 0x00, 0x00, 0x00, 0x00, 0x00, 0x00, 0x00,
                  0x00, 0x00, 0x00, 0x00, 0x00, 0x00, 0x00, 0x00];
    let new_target = Consensus::adjust_target(&target, 110);
    assert!(new_target > target);
}

#[test]
fn adjust_target_exact_bytes() {
    let mut target = [0u8; 32];
    target[2] = 0x10;
    target[31] = 0x05;
    let down = Consensus::adjust_target(&target, 90);
    let mut expected = [0u8; 32];
    expected[2] = 14; // 16 * 90 / 100 = 14.4
    expected[31] = 4; // 5 * 90 = 450 -> 4, carry 50 upwards
    expected[30] = 0; // (0 * 90 + 50) / 100 = 0, carry 50
    assert_eq!(down, expected);
    let up = Consensus::adjust_target(&target, 110);
    let mut expected_up = [0u8; 32];
    expected_up[2] = 18; // (16 * 110 + 50) / 100 = 18.1
    expected_up[31] = 5; // 550 / 100
    assert_eq!(up, expected_up);
    // an overflowing byte keeps its low eight bits: 255 * 110 / 100 = 280 -> 24
    let wrapped = Consensus::adjust_target(&[0xFFu8; 32], 110);
    assert_eq!(wrapped[31], 24);
}

#[test]
fn easing_vote_direction_follows_first_changed_byte() {
    // the first changed byte overflows: the eased target comes out smaller
    let mut t = [0u8; 32];
    t[1] = 0xFF;
    let eased = Consensus::adjust_target(&t, 110);
    let mut expected = [0u8; 32];
    expected[1] = 0x18;
    assert_eq!(eased, expected);
    assert!(eased < t);
    // the first changed byte does not overflow: the eased target is larger
    t[0] = 0x0A;
    let eased = Consensus::adjust_target(&t, 110);
    expected[0] = 0x0B;
    assert_eq!(eased, expected);
    assert!(eased > t);
}

#[test]
fn block_work_values() {
    assert_eq!(Consensus::block_work(&Difficulty::new([0xFFu8; 32])), 1);
    assert_eq!(Consensus::block_work(&Difficulty::new([0u8; 32])), u128::MAX);
    let g = Difficulty::genesis();
    let v = u128::from_be_bytes([0, 0, 0x0F, 0xFF, 0, 0, 0, 0, 0, 0, 0, 0, 0, 0, 0, 0]);
    assert_eq!(Consensus::block_work(&g), u128::MAX / v);
}

/// A linked chain: genesis at 0, then blocks at heights `from..=to`, each on the previous one.
fn linked_chain(from: u64, to: u64, vote: i8) -> (BlockStorage, Vec<[u8; 32]>) {
    let mut storage = BlockStorage::new();
    let genesis = make_block([0u8; 32], 1, 0);
    storage.store_block(&genesis, 0);
    let mut hashes = vec![genesis.hash()];
    let mut prev = genesis.hash();
    for h in from..=to {
        let mut b = make_block(prev, 1 + h, h);
        b.header.difficulty_vote = vote;
        storage.store_block(&b, h);
        prev = b.hash();
        hashes.push(prev);
    }
    (storage, hashes)
}

#[test]
fn difficulty_vote_majority_lowers_target_at_period() {
    let period = etch::DIFFICULTY_ADJUSTMENT_PERIOD;
    let (storage, hashes) = linked_chain(period - 1001, period - 1, 1);
    let parent = *hashes.last().unwrap();
    let g = Difficulty::genesis();
    let d = Consensus::compute_difficulty(&storage, period, &parent, &g);
    assert_eq!(d.target, Consensus::adjust_target(&g.target, 90));
    assert!(d.target < g.target);
    // off the period boundary the parent's target is kept
    let same = Consensus::compute_difficulty(&storage, period + 1, &parent, &g);
    assert_eq!(same, g);
    let votes = Consensus::collect_votes(&storage, period - 1);
    assert_eq!(votes.len(), 1000);
    assert!(votes.iter().all(|v| *v == 1));
}

#[test]
fn difficulty_vote_down_raises_target_and_no_majority_keeps_it() {
    let period = etch::DIFFICULTY_ADJUSTMENT_PERIOD;
    let g = Difficulty::genesis();
    let (storage, hashes) = linked_chain(period - 1001, period - 1, -1);
    let d = Consensus::compute_difficulty(&storage, period, hashes.last().unwrap(), &g);
    assert_eq!(d.target, Consensus::adjust_target(&g.target, 110));
    assert!(d.target > g.target);
    let (storage0, hashes0) = linked_chain(period - 1001, period - 1, 0);
    let d0 = Consensus::compute_difficulty(&storage0, period, hashes0.last().unwrap(), &g);
    assert_eq!(d0, g);
}

#[test]
fn difficulty_unknown_parent_is_genesis() {
    let storage = BlockStorage::new();
    let g = Difficulty::new([7u8; 32]);
    assert_eq!(Consensus::compute_difficulty(&storage, 5, &[1u8; 32], &g), g);
    assert_eq!(Consensus::difficulty_at_height(&storage, 0, &g), g);
    assert_eq!(Consensus::difficulty_at_height(&storage, 3, &g), g);
}

#[test]
fn cumulative_work_sums_chain() {
    let (storage, hashes) = linked_chain(1, 4, 0);
    let easy = Difficulty::new([0xFFu8; 32]);
    assert_eq!(Consensus::cumulative_work(&storage, &hashes[4], &easy), 5);
    assert_eq!(Consensus::cumulative_work(&storage, &hashes[2], &easy), 3);
    assert_eq!(Consensus::cumulative_work(&storage, &[9u8; 32], &easy), 0);
}

#[test]
fn ancestors_and_common_ancestor() {
    let (mut storage, hashes) = linked_chain(1, 3, 0);
    let anc = Consensus::get_ancestors(&storage, &hashes[3]);
    assert_eq!(anc, vec![hashes[3], hashes[2], hashes[1], hashes[0]]);
    // a fork on top of height 1
    let fork = make_block(hashes[1], 99, 77);
    storage.store_block(&fork, 2);
    let common = Consensus::find_common_ancestor(&storage, &hashes[3], &fork.hash());
    assert_eq!(common, Some(hashes[1]));
    assert_eq!(Consensus::find_common_ancestor(&storage, &[5u8; 32], &fork.hash()), None);
    assert!(Consensus::get_ancestors(&storage, &[5u8; 32]).is_empty());
    // the same either way round, and an ancestor of the other is the answer
    assert_eq!(Consensus::find_common_ancestor(&storage, &fork.hash(), &hashes[3]), Some(hashes[1]));
    assert_eq!(Consensus::find_common_ancestor(&storage, &hashes[2], &hashes[3]), Some(hashes[2]));
    assert_eq!(Consensus::find_common_ancestor(&storage, &hashes[3], &hashes[2]), Some(hashes[2]));
}

#[test]
fn best_chain_most_work_last_among_equals() {
    let (mut storage, hashes) = linked_chain(1, 3, 0);
    let fork = make_block(hashes[1], 99, 77);
    storage.store_block(&fork, 2);
    let easy = Difficulty::new([0xFFu8; 32]);
    let best = Consensus::select_best_chain(&storage, &[fork.hash(), hashes[3], hashes[2]], &easy);
    assert_eq!(best, Some(hashes[3]));
    let tie = Consensus::select_best_chain(&storage, &[hashes[2], fork.hash()], &easy);
    assert_eq!(tie, Some(fork.hash()));
    assert_eq!(Consensus::select_best_chain(&storage, &[], &easy), None);
}

#[test]
fn supply_bound() {
    let (storage, _) = linked_chain(1, 10, 0);
    assert!(Consensus::verify_supply(&storage));
    assert!(Consensus::verify_supply(&BlockStorage::new()));
}

#[test]
fn validation_checks_before_proof_of_work() {
    let storage = BlockStorage::new();
    let easy = Difficulty::new([0xFFu8; 32]);
    let now = 2_000_000_000;
    let mut bad_count = make_block([0u8; 32], 10, 0);
    bad_count.header.payload_count = 1;
    assert_eq!(
        Consensus::validate_block_at(&bad_count, &storage, &easy, now),
        Err("payload count mismatch".to_string())
    );
    let mut bad_root = make_block([0u8; 32], 10, 0);
    bad_root.header.merkle_root = [1u8; 32];
    assert_eq!(
        Consensus::validate_block_at(&bad_root, &storage, &easy, now),
        Err("merkle root mismatch".to_string())
    );
    let future = make_block([0u8; 32], now + 121, 0);
    assert_eq!(
        Consensus::validate_block_at(&future, &storage, &easy, now),
        Err("timestamp too far in future".to_string())
    );
    let edge = make_block([0u8; 32], now + 120, 0);
    assert_eq!(Consensus::validate_block_at(&edge, &storage, &easy, now), Ok(()));
    let with_payload = Block {
        header: BlockHeader {
            previous_hash: [0u8; 32],
            timestamp: 10,
            miner_address: [0u8; 32],
            difficulty_vote: 0,
            payload_count: 1,
            merkle_root: Block::compute_merkle_root(&[Payload([1u8; 256])]),
        },
        nonce: 0,
        payloads: vec![Payload([1u8; 256])],
    };
    assert_eq!(Consensus::validate_block_at(&with_payload, &storage, &easy, now), Ok(()));
}

#[test]
fn validation_rejects_insufficient_work() {
    let storage = BlockStorage::new();
    let hard = Difficulty::new([0u8; 32]);
    let block = make_block([3u8; 32], 10, 0);
    assert_eq!(
        Consensus::validate_block_at(&block, &storage, &hard, 2_000_000_000),
        Err("insufficient proof of work".to_string())
    );
}

#[test]
fn validation_rejects_unknown_parent() {
    let storage = BlockStorage::new();
    let easy = Difficulty::new([0xFFu8; 32]);
    let block = make_block([3u8; 32], 10, 0);
    assert_eq!(
        Consensus::validate_block_at(&block, &storage, &easy, 2_000_000_000),
        Err("previous block not found".to_string())
    );
}

#[test]
fn validation_rejects_non_increasing_timestamp() {
    let easy = Difficulty::new([0xFFu8; 32]);
    let mut stored = BlockStorage::new();
    let genesis = make_block([0u8; 32], 100, 0);
    stored.store_block(&genesis, 0);
    let same_time = make_block(genesis.hash(), 100, 1);
    assert_eq!(
        Consensus::validate_block_at(&same_time, &stored, &easy, 2_000_000_000),
        Err("timestamp not increasing".to_string())
    );
}

#[test]
fn validation_accepts_child_with_later_timestamp() {
    let easy = Difficulty::new([0xFFu8; 32]);
    let mut stored = BlockStorage::new();
    let genesis = make_block([0u8; 32], 100, 0);
    stored.store_block(&genesis, 0);
    let later = make_block(genesis.hash(), 101, 1);
    assert_eq!(Consensus::validate_block_at(&later, &stored, &easy, 2_000_000_000), Ok(()));
}

#[test]
fn walks_end_at_unknown_parents() {
    // a lone block at height 5 whose parent was never stored
    let mut storage = BlockStorage::new();
    let lone = make_block([7u8; 32], 50, 5);
    storage.store_block(&lone, 5);
    let g = Difficulty::genesis();
    assert_eq!(Consensus::difficulty_at_height(&storage, 5, &g), g);
    assert_eq!(Consensus::compute_difficulty(&storage, 6, &lone.hash(), &g), g);
    assert_eq!(Consensus::cumulative_work(&storage, &lone.hash(), &g), 1_048_832);
    assert_eq!(Consensus::get_ancestors(&storage, &lone.hash()), vec![lone.hash()]);
    assert_eq!(Consensus::find_common_ancestor(&storage, &lone.hash(), &[9u8; 32]), None);
}

#[test]
fn vote_window_ends_at_the_parent() {
    // heights period-1001 ..= period-1 on top of genesis; the window for a block
    // at `period` is the 1000 heights period-1000 ..= period-1 (the parent's vote included)
    let period = etch::DIFFICULTY_ADJUSTMENT_PERIOD;
    let mut storage = BlockStorage::new();
    let genesis = make_block([0u8; 32], 1, 0);
    storage.store_block(&genesis, 0);
    let mut prev = genesis.hash();
    for h in (period - 1001)..=(period - 1) {
        let mut b = make_block(prev, 1 + h, h);
        // one block older than the window votes up, 500 in the window vote up,
        // the parent and the rest of the window keep
        let k = h - (period - 1001);
        b.header.difficulty_vote = if k <= 500 { 1 } else { 0 };
        storage.store_block(&b, h);
        prev = b.hash();
    }
    let g = Difficulty::genesis();
    let votes = Consensus::collect_votes(&storage, period - 1);
    assert_eq!(votes.len(), 1000);
    assert_eq!(votes.iter().filter(|v| **v > 0).count(), 500);
    // 500 of 1000 is no majority: the target stays
    assert_eq!(Consensus::compute_difficulty(&storage, period, &prev, &g), g);
}

#[test]
fn block_work_reads_the_whole_target() {
    // value 2^129 - 1: (2^256 - 1) / (2^129 - 1) = 2^127
    let mut t = [0xFFu8; 32];
    for b in t.iter_mut().take(15) {
        *b = 0;
    }
    t[15] = 0x01;
    assert_eq!(Consensus::block_work(&Difficulty::new(t)), 1u128 << 127);
    // value 2^129: (2^256 - 1) / 2^129 = 2^127 - 1
    let mut t2 = [0u8; 32];
    t2[15] = 0x02;
    assert_eq!(Consensus::block_work(&Difficulty::new(t2)), (1u128 << 127) - 1);
    // below 2^128 the work is capped at u128::MAX
    let mut t3 = [0u8; 32];
    t3[31] = 1;
    assert_eq!(Consensus::block_work(&Difficulty::new(t3)), u128::MAX);
    // the low bytes count: a higher target gives less work
    let mut t4 = [0u8; 32];
    t4[0] = 0x01;
    let mut t5 = t4;
    t5[31] = 0xFF;
    assert!(Consensus::block_work(&Difficulty::new(t5)) <= Consensus::block_work(&Difficulty::new(t4)));
    assert_eq!(Consensus::block_work(&Difficulty::new(t4)), 255);
}
