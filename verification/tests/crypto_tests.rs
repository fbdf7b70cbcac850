use ed25519_dalek::{Signer, SigningKey, Verifier};
use etch::crypto::{address_from_public_key, generate_keypair, load_keypair, sign_block, verify_block_signature};
use etch::miner::search_nonce;
use etch::types::{Block, BlockHeader, Difficulty};

#[test]
fn generated_key_matches_loaded_key() {
    let k = generate_keypair();
    let loaded = load_keypair(&k.secret).unwrap();
    assert_eq!(loaded.public, k.public);
    assert_eq!(loaded.secret, k.secret);
    assert_ne!(k.public, k.secret);
}

#[test]
fn load_keypair_derives_dalek_public_key() {
    let secret = [7u8; 32];
    let k = load_keypair(&secret).unwrap();
    let expected = SigningKey::from_bytes(&secret).verifying_key().to_bytes();
    assert_eq!(k.public, expected);
    assert_eq!(address_from_public_key(&k.public), k.public);
}

#[test]
fn sign_and_verify_block_hash() {
    let secret = [9u8; 32];
    let k = load_keypair(&secret).unwrap();
    let hash = [3u8; 32];
    let sig = sign_block(&secret, &hash);
    let dalek_sig = SigningKey::from_bytes(&secret).sign(&hash);
    assert_eq!(sig, dalek_sig.to_bytes());
    assert!(SigningKey::from_bytes(&secret).verifying_key().verify(&hash, &dalek_sig).is_ok());
    assert!(verify_block_signature(&k.public, &hash, &sig));
    assert!(!verify_block_signature(&k.public, &[4u8; 32], &sig));
    let mut bad = sig;
    bad[0] ^= 1;
    assert!(!verify_block_signature(&k.public, &hash, &bad));
    let other = load_keypair(&[1u8; 32]).unwrap();
    assert!(!verify_block_signature(&other.public, &hash, &sig));
}

#[test]
fn search_nonce_takes_first_satisfying_nonce() {
    let block = Block {
        header: BlockHeader {
            previous_hash: [1u8; 32],
            timestamp: 5,
            miner_address: [0u8; 32],
            difficulty_vote: 0,
            payload_count: 0,
            merkle_root: [0u8; 32],
        },
        nonce: 99,
        payloads: vec![],
    };
    let easy = Difficulty::new([0xFFu8; 32]);
    let found = search_nonce(block.clone(), &easy).unwrap();
    assert_eq!(found.nonce, 0);
    assert_eq!(found.header, block.header);
    assert!(easy.satisfies(&found.pow_hash()));
}
