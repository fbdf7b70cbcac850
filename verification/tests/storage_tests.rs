use etch::storage::{frame_record, read_record, BlockStorage};
use etch::types::{Block, BlockHeader, Payload};

fn make_block(height: u64) -> Block {
    Block {
        header: BlockHeader {
            previous_hash: [height as u8; 32],
            timestamp: 1000 + height,
            miner_address: [0u8; 32],
            difficulty_vote: 0,
            payload_count: 1,
            merkle_root: [0u8; 32],
        },
        nonce: height,
        payloads: vec![Payload([height as u8; 256])],
    }
}

#[test]
fn test_store_and_retrieve() {
    let mut storage = BlockStorage::new();
    let block = make_block(0);
    let hash = block.hash();
    storage.store_block(&block, 0);
    let retrieved = storage.get_block(&hash).unwrap();
    assert_eq!(retrieved.hash(), hash);
}

#[test]
fn test_height_lookup() {
    let mut storage = BlockStorage::new();
    for i in 0..5 {
        let block = make_block(i);
        storage.store_block(&block, i);
    }
    let block = storage.get_block_by_height(2).unwrap();
    assert_eq!(block.nonce, 2);
}

#[test]
fn test_prune() {
    let mut storage = BlockStorage::new();
    for i in 0..1200 {
        let block = make_block(i);
        storage.store_block(&block, i);
    }
    let tip = storage.tip().1;
    assert_eq!(tip, 1199);
    storage.prune();
    let block0 = storage.get_block_by_height(0).unwrap();
    assert!(block0.payloads.is_empty());
    let block1199 = storage.get_block_by_height(1199).unwrap();
    assert!(!block1199.payloads.is_empty());
}

#[test]
fn prune_boundary_and_hashes_kept() {
    let mut storage = BlockStorage::new();
    for i in 0..1200 {
        storage.store_block(&make_block(i), i);
    }
    storage.prune();
    // the last 1000 heights (200..=1199) keep their payloads; 199 and below lose them
    assert!(storage.get_block_by_height(199).unwrap().payloads.is_empty());
    assert_eq!(storage.get_block_by_height(200).unwrap().payloads.len(), 1);
    let pruned = storage.get_block_by_height(5).unwrap();
    assert_eq!(pruned.hash(), make_block(5).hash());
    assert_eq!(storage.height_of(&make_block(5).hash()), Some(5));
}

#[test]
fn prune_does_nothing_while_tip_is_low() {
    let mut storage = BlockStorage::new();
    for i in 0..1000 {
        storage.store_block(&make_block(i), i);
    }
    storage.prune();
    assert_eq!(storage.get_block_by_height(0).unwrap().payloads.len(), 1);
    // at tip 1000 the block at height 0 is 1000 below the tip and is pruned
    storage.store_block(&make_block(1000), 1000);
    storage.prune();
    assert!(storage.get_block_by_height(0).unwrap().payloads.is_empty());
    assert_eq!(storage.get_block_by_height(1).unwrap().payloads.len(), 1);
}

#[test]
fn store_same_hash_replaces_entry() {
    let mut storage = BlockStorage::new();
    let b = make_block(3);
    storage.store_block(&b, 3);
    storage.store_block(&make_block(4), 4);
    storage.store_block(&b, 7);
    assert_eq!(storage.len(), 2);
    assert_eq!(storage.height_of(&b.hash()), Some(7));
    assert_eq!(storage.tip(), (b.hash(), 7));
    assert!(storage.get_block_by_height(3).is_none());
}

#[test]
fn empty_store_lookups() {
    let storage = BlockStorage::new();
    assert_eq!(storage.tip(), ([0u8; 32], 0));
    assert!(!storage.has_block(&[1u8; 32]));
    assert!(storage.get_block(&[1u8; 32]).is_none());
    assert!(storage.get_header(&[1u8; 32]).is_none());
    assert!(storage.height_of(&[1u8; 32]).is_none());
    assert!(storage.all_hashes().is_empty());
    assert!(!storage.has_height(0));
}

#[test]
fn headers_and_hash_list() {
    let mut storage = BlockStorage::new();
    let a = make_block(1);
    let b = make_block(2);
    storage.store_block(&a, 1);
    storage.store_block(&b, 2);
    assert_eq!(storage.get_header(&a.hash()), Some(a.header));
    assert_eq!(storage.all_hashes(), vec![a.hash(), b.hash()]);
    assert!(storage.has_height(2));
}

#[test]
fn meta_roundtrip() {
    let mut storage = BlockStorage::new();
    let b = make_block(9);
    storage.store_block(&b, 0x0102_0304_0506_0708);
    let bytes = storage.encode_meta();
    assert_eq!(bytes.len(), 40);
    assert_eq!(&bytes[0..32], &b.hash());
    assert_eq!(&bytes[32..40], &0x0102_0304_0506_0708u64.to_le_bytes());
    let mut fresh = BlockStorage::new();
    fresh.load_meta(&bytes);
    assert_eq!(fresh.tip(), (b.hash(), 0x0102_0304_0506_0708));
    let mut short = BlockStorage::new();
    short.load_meta(&bytes[..39]);
    assert_eq!(short.tip(), ([0u8; 32], 0));
}

#[test]
fn record_framing_roundtrip() {
    let body = vec![1u8, 2, 3, 4, 5];
    let framed = frame_record(&body);
    assert_eq!(framed, vec![5, 0, 0, 0, 1, 2, 3, 4, 5]);
    assert_eq!(read_record(&framed, 0), Some((4, 5)));
    assert_eq!(read_record(&framed[..8], 0), None);
    assert_eq!(read_record(&framed, 6), None);
    let mut two = framed.clone();
    two.extend_from_slice(&frame_record(&[9u8; 300]));
    assert_eq!(read_record(&two, 9), Some((13, 300)));
}

#[test]
fn rebuild_index_from_block_file_order() {
    let blocks = vec![make_block(0), make_block(1), make_block(2)];
    let mut storage = BlockStorage::new();
    storage.rebuild_index(&blocks);
    assert_eq!(storage.tip(), (make_block(2).hash(), 2));
    assert_eq!(storage.height_of(&make_block(1).hash()), Some(1));
    let dup = vec![make_block(0), make_block(1), make_block(0), make_block(3)];
    let mut storage2 = BlockStorage::new();
    storage2.rebuild_index(&dup);
    assert_eq!(storage2.tip(), (make_block(1).hash(), 1));
    assert_eq!(storage2.len(), 2);
}

#[test]
fn index_file_roundtrip_and_restore() {
    let mut storage = BlockStorage::new();
    for i in 0..3 {
        storage.store_block(&make_block(i), i);
    }
    let offsets = vec![0u64, 100, 200];
    let bytes = storage.encode_index(&offsets);
    // the index reads back as the map the node has always written
    let map: std::collections::HashMap<[u8; 32], (u64, u64)> = postcard::from_bytes(&bytes).unwrap();
    assert_eq!(map.len(), 3);
    assert_eq!(map[&make_block(1).hash()], (1, 100));
    let entries = etch::storage::parse_index(&bytes);
    assert_eq!(entries, vec![
        (make_block(0).hash(), (0, 0)),
        (make_block(1).hash(), (1, 100)),
        (make_block(2).hash(), (2, 200)),
    ]);
    assert!(etch::storage::parse_index(&[0xFF, 0xFF, 0xFF]).is_empty());
    // restore: the block read for entry 1 does not hash to its entry and is skipped
    let blocks = vec![Some(make_block(0)), Some(make_block(7)), Some(make_block(2))];
    let mut meta = make_block(2).hash().to_vec();
    meta.extend_from_slice(&2u64.to_le_bytes());
    let mut restored = BlockStorage::new();
    restored.restore(&entries, &blocks, &meta);
    assert_eq!(restored.len(), 2);
    assert_eq!(restored.height_of(&make_block(2).hash()), Some(2));
    assert!(!restored.has_block(&make_block(1).hash()));
    assert_eq!(restored.tip(), (make_block(2).hash(), 2));
    let mut no_meta = BlockStorage::new();
    no_meta.restore(&entries, &blocks, &[]);
    assert_eq!(no_meta.tip(), ([0u8; 32], 0));
}
