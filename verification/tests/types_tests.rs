use etch::types::{Block, BlockHeader, ChainConfig, Difficulty, Payload};
use sha2::Digest;

fn header(previous_hash: [u8; 32], timestamp: u64, vote: i8, count: u32, root: [u8; 32]) -> BlockHeader {
    BlockHeader {
        previous_hash,
        timestamp,
        miner_address: [2u8; 32],
        difficulty_vote: vote,
        payload_count: count,
        merkle_root: root,
    }
}

fn sha256(bytes: &[u8]) -> [u8; 32] {
    sha2::Sha256::digest(bytes).into()
}

#[test]
fn test_block_hash_deterministic() {
    let block = Block {
        header: BlockHeader {
            previous_hash: [1u8; 32],
            timestamp: 1000,
            miner_address: [2u8; 32],
            difficulty_vote: 0,
            payload_count: 0,
            merkle_root: [0u8; 32],
        },
        nonce: 42,
        payloads: vec![],
    };
    let h1 = block.hash();
    let h2 = block.hash();
    assert_eq!(h1, h2);
}

#[test]
fn test_merkle_root_empty() {
    let root = Block::compute_merkle_root(&[]);
    assert_eq!(root, [0u8; 32]);
}

#[test]
fn test_merkle_root_single() {
    let payload = Payload([1u8; 256]);
    let root = Block::compute_merkle_root(&[payload]);
    let mut hasher = sha2::Sha256::new();
    hasher.update(&payload.0);
    let expected: [u8; 32] = hasher.finalize().into();
    assert_eq!(root, expected);
}

#[test]
fn test_difficulty_satisfies() {
    let diff = Difficulty::genesis();
    let mut hash = [0u8; 32];
    hash[0] = 0x00;
    hash[1] = 0x00;
    hash[2] = 0x0F;
    hash[3] = 0xFE;
    assert!(diff.satisfies(&hash));
    let mut hash2 = [0u8; 32];
    hash2[0] = 0xFF;
    assert!(!diff.satisfies(&hash2));
}

#[test]
fn header_encoding_is_postcard_layout() {
    // timestamp 300 = varint [0xAC, 0x02]; vote -1 = 0xFF; count 1 = [0x01]
    let h = header([7u8; 32], 300, -1, 1, [9u8; 32]);
    let mut expected = vec![7u8; 32];
    expected.extend_from_slice(&[0xAC, 0x02]);
    expected.extend_from_slice(&[2u8; 32]);
    expected.push(0xFF);
    expected.push(0x01);
    expected.extend_from_slice(&[9u8; 32]);
    assert_eq!(h.encode(), expected);
}

#[test]
fn block_hash_is_sha256_of_header_and_nonce() {
    let h = header([1u8; 32], 1000, 0, 0, [0u8; 32]);
    let block = Block { header: h, nonce: 0x0102_0304_0506_0708, payloads: vec![] };
    let mut bytes = h.encode();
    bytes.extend_from_slice(&0x0102_0304_0506_0708u64.to_le_bytes());
    assert_eq!(block.hash(), sha256(&bytes));
    assert_ne!(block.hash(), h.previous_hash);
}

#[test]
fn block_hash_ignores_payloads() {
    let h = header([1u8; 32], 1000, 0, 1, [3u8; 32]);
    let a = Block { header: h, nonce: 5, payloads: vec![Payload([5u8; 256])] };
    let b = Block { header: h, nonce: 5, payloads: vec![] };
    assert_eq!(a.hash(), b.hash());
    let c = Block { header: h, nonce: 6, payloads: vec![] };
    assert_ne!(a.hash(), c.hash());
}

#[test]
fn pow_hash_is_scrypt_of_block_hash() {
    let h = header([1u8; 32], 1000, 0, 0, [0u8; 32]);
    let block = Block { header: h, nonce: 1, payloads: vec![] };
    let bh = block.hash();
    let params = scrypt::Params::new(15, 8, 1, 32).unwrap();
    let mut expected = [0u8; 32];
    scrypt::scrypt(&bh, &bh, &params, &mut expected).unwrap();
    let pow = block.pow_hash();
    assert_eq!(pow, expected);
    assert_ne!(pow, bh);
}

#[test]
fn merkle_root_three_payloads_pairs_last_with_itself() {
    let ps = [Payload([1u8; 256]), Payload([2u8; 256]), Payload([3u8; 256])];
    let l: Vec<[u8; 32]> = ps.iter().map(|p| sha256(&p.0)).collect();
    let cat = |a: &[u8; 32], b: &[u8; 32]| {
        let mut v = a.to_vec();
        v.extend_from_slice(b);
        sha256(&v)
    };
    let n0 = cat(&l[0], &l[1]);
    let n1 = cat(&l[2], &l[2]);
    let root = cat(&n0, &n1);
    assert_eq!(Block::compute_merkle_root(&ps), root);
}

#[test]
fn merkle_root_two_payloads() {
    let ps = [Payload([1u8; 256]), Payload([2u8; 256])];
    let mut v = sha256(&ps[0].0).to_vec();
    v.extend_from_slice(&sha256(&ps[1].0));
    assert_eq!(Block::compute_merkle_root(&ps), sha256(&v));
}

#[test]
fn verify_payload_count_and_merkle_root() {
    let ps = vec![Payload([4u8; 256])];
    let root = Block::compute_merkle_root(&ps);
    let good = Block { header: header([0u8; 32], 1, 0, 1, root), nonce: 0, payloads: ps.clone() };
    assert!(good.verify_payload_count());
    assert!(good.verify_merkle_root());
    let bad_count = Block { header: header([0u8; 32], 1, 0, 2, root), nonce: 0, payloads: ps.clone() };
    assert!(!bad_count.verify_payload_count());
    let bad_root = Block { header: header([0u8; 32], 1, 0, 1, [1u8; 32]), nonce: 0, payloads: ps };
    assert!(!bad_root.verify_merkle_root());
    let too_many = Block {
        header: header([0u8; 32], 1, 0, 1025, [0u8; 32]),
        nonce: 0,
        payloads: vec![Payload([0u8; 256]); 1025],
    };
    assert!(!too_many.verify_payload_count());
}

#[test]
fn difficulty_target_satisfies_itself_and_genesis_value() {
    let d = Difficulty::genesis();
    let mut t = [0u8; 32];
    t[2] = 0x0F;
    t[3] = 0xFF;
    assert_eq!(d.target, t);
    assert!(d.satisfies(&t));
    let mut above = t;
    above[31] = 1;
    assert!(!d.satisfies(&above));
    assert_eq!(Difficulty::new([5u8; 32]).target, [5u8; 32]);
}

#[test]
fn mainnet_and_default_config() {
    let c = ChainConfig::mainnet();
    assert_eq!(c.genesis_timestamp, 1_700_000_000);
    assert_eq!(c.genesis_difficulty, Difficulty::genesis());
    assert_eq!(c.genesis_payload, Payload([0u8; 256]));
    let d = ChainConfig::default();
    assert_eq!(d.genesis_timestamp, c.genesis_timestamp);
}

#[test]
fn meeting_a_target_meets_every_higher_target() {
    let mut hash = [0u8; 32];
    hash[3] = 0x10;
    let genesis = Difficulty::genesis();
    assert!(genesis.satisfies(&hash));
    let mut higher = genesis.target;
    higher[2] = 0x10;
    assert!(Difficulty::new(higher).satisfies(&hash));
    assert!(Difficulty::new([0xFFu8; 32]).satisfies(&hash));
    assert!(!Difficulty::new([0u8; 32]).satisfies(&hash));
}
