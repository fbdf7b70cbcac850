use etch::chain::Blockchain;
use etch::consensus::Consensus;
use etch::storage::BlockStorage;
use etch::types::{Block, ChainConfig, Difficulty, Payload};

fn easy_config() -> ChainConfig {
    ChainConfig {
        genesis_timestamp: 1_700_000_000,
        genesis_difficulty: Difficulty::new([0xFFu8; 32]),
        genesis_payload: Payload([0u8; 256]),
    }
}

#[test]
fn test_chain_creation() {
    let chain = Blockchain::open(BlockStorage::new(), ChainConfig::mainnet());
    let (tip, height) = chain.tip();
    assert_eq!(height, 0);
    let genesis = chain.get_block(&tip).unwrap();
    assert_eq!(genesis.header.previous_hash, [0u8; 32]);
}

#[test]
fn test_process_valid_block() {
    let mut chain = Blockchain::open(BlockStorage::new(), easy_config());
    let (_tip, _) = chain.tip();
    let mut block = chain.build_block([1u8; 32], 0, vec![]).unwrap();
    let difficulty = chain.current_difficulty();
    for nonce in 0..1_000_000 {
        block.nonce = nonce;
        if difficulty.satisfies(&block.pow_hash()) {
            break;
        }
    }
    let result = chain.process_block(block);
    assert!(result.is_ok());
    assert_eq!(chain.tip().1, 1);
}

#[test]
fn test_process_duplicate_block() {
    let mut chain = Blockchain::open(BlockStorage::new(), ChainConfig::mainnet());
    let (tip, _) = chain.tip();
    let genesis = chain.get_block(&tip).unwrap();
    let result = chain.process_block(genesis.clone());
    assert!(result.is_ok());
    assert_eq!(result.unwrap(), false);
}

#[test]
fn debug_timestamp() {
    let mut chain = Blockchain::open(BlockStorage::new(), easy_config());
    let (tip, height) = chain.tip();
    println!("genesis hash: {:02x?}", &tip[..4]);
    println!("genesis height: {}", height);

    let genesis = chain.get_block(&tip).unwrap();
    println!("genesis timestamp: {}", genesis.header.timestamp);

    let block = chain.build_block([1u8; 32], 0, vec![]).unwrap();
    println!("new block timestamp: {}", block.header.timestamp);
    println!("new block previous_hash: {:02x?}", &block.header.previous_hash[..4]);

    let result = chain.process_block(block);
    println!("process result: {:?}", result);
}

#[test]
fn genesis_block_contents() {
    let config = easy_config();
    let chain = Blockchain::open(BlockStorage::new(), config);
    let (tip, height) = chain.tip();
    assert_eq!(height, 0);
    let g = chain.get_block(&tip).unwrap();
    assert_eq!(g.header.timestamp, 1_700_000_000);
    assert_eq!(g.header.payload_count, 1);
    assert_eq!(g.payloads, vec![Payload([0u8; 256])]);
    assert_eq!(g.header.merkle_root, Block::compute_merkle_root(&[Payload([0u8; 256])]));
    assert_eq!(g.nonce, 0);
    assert_eq!(chain.get_header(&tip), Some(g.header));
    assert_eq!(chain.get_block_by_height(0).unwrap().hash(), tip);
    assert_eq!(chain.current_difficulty(), config.genesis_difficulty);
    assert_eq!(chain.storage().len(), 1);
}

#[test]
fn build_block_caps_payloads() {
    let chain = Blockchain::open(BlockStorage::new(), easy_config());
    let payloads = vec![Payload([3u8; 256]); 1030];
    let b = chain.build_block_with_timestamp([4u8; 32], -1, payloads, 1_700_000_500).unwrap();
    assert_eq!(b.payloads.len(), 1024);
    assert_eq!(b.header.payload_count, 1024);
    assert_eq!(b.header.previous_hash, chain.tip().0);
    assert_eq!(b.header.timestamp, 1_700_000_500);
    assert_eq!(b.header.difficulty_vote, -1);
    assert_eq!(b.header.miner_address, [4u8; 32]);
    assert_eq!(b.nonce, 0);
    assert!(b.verify_merkle_root());
    assert!(b.verify_payload_count());
}

#[test]
fn orphan_is_held_then_adopted() {
    let mut chain = Blockchain::open(BlockStorage::new(), easy_config());
    let b1 = chain.build_block_with_timestamp([1u8; 32], 0, vec![], 1_700_000_001).unwrap();
    let mut b2 = b1.clone();
    b2.header.previous_hash = b1.hash();
    b2.header.timestamp = 1_700_000_002;
    // b2 arrives first: its parent b1 is unknown, so it is held back
    assert_eq!(chain.process_block(b2.clone()), Ok(false));
    assert!(chain.get_block(&b2.hash()).is_none());
    // b1 arrives: it is stored and b2 is adopted on top of it
    assert_eq!(chain.process_block(b1.clone()), Ok(true));
    assert_eq!(chain.tip(), (b2.hash(), 2));
    assert_eq!(chain.storage().height_of(&b1.hash()), Some(1));
    let (old, new) = chain.try_reorg();
    assert!(old.is_empty() && new.is_empty());
}

#[test]
fn invalid_block_is_rejected_without_change() {
    let mut chain = Blockchain::open(BlockStorage::new(), easy_config());
    let mut b = chain.build_block_with_timestamp([1u8; 32], 0, vec![], 1_600_000_000).unwrap();
    b.nonce = 0;
    assert_eq!(chain.process_block(b), Err("timestamp not increasing".to_string()));
    assert_eq!(chain.tip().1, 0);
    assert_eq!(chain.storage().len(), 1);
}

#[test]
fn reopen_keeps_existing_chain() {
    let mut chain = Blockchain::open(BlockStorage::new(), easy_config());
    let b1 = chain.build_block_with_timestamp([1u8; 32], 0, vec![], 1_700_000_001).unwrap();
    assert_eq!(chain.process_block(b1.clone()), Ok(true));
    let reopened = Blockchain::open(storage_copy(&chain), easy_config());
    assert_eq!(reopened.tip(), (b1.hash(), 1));
    assert_eq!(Consensus::cumulative_work(reopened.storage(), &b1.hash(), &easy_config().genesis_difficulty), 2);
}

fn storage_copy(chain: &Blockchain) -> BlockStorage {
    let s = chain.storage();
    let mut hashes = s.all_hashes();
    hashes.sort_by_key(|h| s.height_of(h).unwrap());
    let mut out = BlockStorage::new();
    for h in hashes {
        out.store_block(&s.get_block(&h).unwrap(), s.height_of(&h).unwrap());
    }
    out
}

#[test]
fn only_the_configured_genesis_sits_on_the_zero_parent() {
    let mut chain = Blockchain::open(BlockStorage::new(), easy_config());
    let before = chain.tip();
    let mut other = chain.build_block_with_timestamp([2u8; 32], 0, vec![], 1_700_000_005).unwrap();
    other.header.previous_hash = [0u8; 32];
    assert_eq!(chain.process_block(other.clone()), Err("not the genesis block".to_string()));
    assert_eq!(chain.tip(), before);
    assert!(chain.get_block(&other.hash()).is_none());
}

#[test]
fn lighter_fork_does_not_take_the_tip() {
    let mut chain = Blockchain::open(BlockStorage::new(), easy_config());
    let (genesis, _) = chain.tip();
    let now = 1_800_000_000;
    let b1 = chain.build_block_with_timestamp([1u8; 32], 0, vec![], 1_700_000_001).unwrap();
    assert_eq!(chain.process_block_at(b1.clone(), now), Ok(true));
    let b2 = chain.build_block_with_timestamp([1u8; 32], 0, vec![], 1_700_000_002).unwrap();
    assert_eq!(chain.process_block_at(b2.clone(), now), Ok(true));
    assert_eq!(chain.tip(), (b2.hash(), 2));
    // a block on genesis carries less work than the chain ending at b2
    let mut fork = b1.clone();
    fork.header.miner_address = [3u8; 32];
    fork.header.previous_hash = genesis;
    assert_eq!(chain.process_block_at(fork.clone(), now), Ok(true));
    assert_eq!(chain.storage().height_of(&fork.hash()), Some(1));
    assert_eq!(chain.tip(), (b2.hash(), 2));
}

#[test]
fn validation_uses_the_given_clock_reading() {
    let mut chain = Blockchain::open(BlockStorage::new(), easy_config());
    let before = chain.tip();
    let b1 = chain.build_block_with_timestamp([1u8; 32], 0, vec![Payload([4u8; 256])], 1_700_001_000).unwrap();
    // 1000 s ahead of a clock reading of 1_700_000_000 is more than 120 s in the future
    assert_eq!(
        chain.process_block_at(b1.clone(), 1_700_000_000),
        Err("timestamp too far in future".to_string())
    );
    assert_eq!(chain.tip(), before);
    assert_eq!(chain.process_block_at(b1.clone(), 1_700_000_900), Ok(true));
    assert_eq!(chain.tip(), (b1.hash(), 1));
    assert_eq!(chain.get_block(&b1.hash()).unwrap().payloads, b1.payloads);
}

#[test]
fn reopening_a_fresh_chain_changes_nothing() {
    let first = Blockchain::open(BlockStorage::new(), easy_config());
    let (genesis, height) = first.tip();
    assert_eq!(height, 0);
    let again = Blockchain::open(storage_copy(&first), easy_config());
    assert_eq!(again.tip(), (genesis, 0));
    assert_eq!(again.storage().len(), 1);
    assert_eq!(again.get_block(&genesis), first.get_block(&genesis));
}

#[test]
fn new_keeps_any_store_as_given() {
    let mut storage = BlockStorage::new();
    // a block whose parent is not stored, at a height no parent accounts for
    let b = Block {
        header: etch::types::BlockHeader {
            previous_hash: [7u8; 32],
            timestamp: 5,
            miner_address: [1u8; 32],
            difficulty_vote: 0,
            payload_count: 0,
            merkle_root: [0u8; 32],
        },
        nonce: 3,
        payloads: vec![],
    };
    storage.store_block(&b, 40);
    let chain = Blockchain::new(storage, easy_config());
    assert_eq!(chain.tip(), (b.hash(), 40));
    assert_eq!(chain.get_block(&b.hash()), Some(b.clone()));
    assert_eq!(chain.storage().len(), 1);
}
