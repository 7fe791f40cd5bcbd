use timestamping::digest::Hash512;
use timestamping::digest::Hash512Ops;
use timestamping::hashing::hash512;
use timestamping::merkle::MerkleTree;
use timestamping::sharded::MultiThreadedHashStore;
use timestamping::service::TimestampingService;

#[test]
fn test_timestamping_service() {
    let mut service = TimestampingService::<8, 0>::with_threads(4);

    // Test initial state
    assert_eq!(service.get_merkle_tree_size(), 0);
    assert!(service.get_merkle_tree_root().is_none());
    assert!(service.get_last_update_timestamp().is_none());

    // Add some hashes
    let hash1 = [1u64, 0, 0, 0, 0, 0, 0, 0];
    let hash2 = [2u64, 0, 0, 0, 0, 0, 0, 0];

    service.hash_store.add_hash(hash1);
    service.hash_store.add_hash(hash2);

    // Update merkle tree
    service.update_merkle_tree();

    // Test updated state
    assert!(service.get_merkle_tree_root().is_some());
    assert!(service.get_last_update_timestamp().is_some());
    assert!(service.get_merkle_tree_size() > 0);

    // Test merkle proof
    let proof = service.get_merkle_proof(&hash1);
    assert!(proof.is_some());

    // Test merkle root bytes
    let root_bytes = service.get_merkle_tree_root_bytes();
    assert!(root_bytes.is_some());
    assert_eq!(root_bytes.unwrap().len(), 64);
}

#[test]
fn test_empty_service_stats() {
    let service = TimestampingService::<8, 0>::with_threads(4);
    assert_eq!(service.hash_store.len(), 0);
    assert_eq!(service.hash_store.occupied_slots(), 0);
    assert_eq!(service.get_merkle_tree_size(), 0);
    assert!(service.get_merkle_tree_root().is_none());
    assert!(service.get_merkle_tree_root_bytes().is_none());
    assert!(service.get_last_update_timestamp().is_none());
}

#[test]
fn test_insert_then_check_single_leaf() {
    // The all-ones digest: 64 bytes of 0xFF.
    let digest = Hash512::from_bytes(&[0xFFu8; 64]).unwrap();
    let salt: Hash512 = [0u64; 8];

    let mut store = MultiThreadedHashStore::<8, 0>::new(1, salt);
    store.add_hash(digest);
    assert!(store.contains(&digest));

    let tree = MerkleTree::new(store.to_array(), salt);
    // A single-leaf tree: the proof path is empty and the root is the
    // salted leaf itself.
    let path = tree.get(&digest).unwrap();
    assert_eq!(path.len(), 0);
    assert_eq!(tree.root().unwrap(), hash512(digest, salt));
}

#[test]
fn test_duplicate_insert_counts_once() {
    let digest = Hash512::from_bytes(&[0x01u8; 64]).unwrap();
    let salt: Hash512 = [0u64; 8];
    let mut store = MultiThreadedHashStore::<8, 0>::new(1, salt);

    assert!(store.add_hash(digest));
    assert!(!store.add_hash(digest));
    assert_eq!(store.len(), 1);
    assert_eq!(store.occupied_slots(), 1);
}

#[test]
fn test_snapshot_is_sorted_after_unordered_inserts() {
    // Digests with first bytes 0x03, 0x01, 0x02, remaining bytes zero.
    let mut first = [0u8; 64];
    first[0] = 0x03;
    let mut second = [0u8; 64];
    second[0] = 0x01;
    let mut third = [0u8; 64];
    third[0] = 0x02;
    let salt: Hash512 = [0u64; 8];

    let mut store = MultiThreadedHashStore::<8, 0>::new(1, salt);
    store.add_hash(Hash512::from_bytes(&first).unwrap());
    store.add_hash(Hash512::from_bytes(&second).unwrap());
    store.add_hash(Hash512::from_bytes(&third).unwrap());

    // The snapshot holds the three salted digests in ascending order,
    // whatever the insertion order was.
    let snapshot = store.to_array();
    assert_eq!(snapshot.len(), 3);
    assert!(snapshot[0] < snapshot[1]);
    assert!(snapshot[1] < snapshot[2]);
}

#[test]
fn test_proof_path_length_five_leaves() {
    let mut service = TimestampingService::<8, 0>::with_threads(1);
    for i in 1..=5 {
        service.hash_store.add_hash([i as u64, 0, 0, 0, 0, 0, 0, 0]);
    }
    service.update_merkle_tree();

    // Five leaves need a depth of 3, so every path has three pairs.
    for i in 1..=5 {
        let path = service.get_merkle_proof(&[i as u64, 0, 0, 0, 0, 0, 0, 0]).unwrap();
        assert_eq!(path.len(), 3);
    }
}

#[test]
fn test_root_stability_across_inserts() {
    let mut service = TimestampingService::<8, 0>::with_threads(2);
    for i in 1..=4 {
        service.hash_store.add_hash([i as u64, 0, 0, 0, 0, 0, 0, 0]);
    }
    service.update_merkle_tree();
    let first_root = service.get_merkle_tree_root().unwrap();

    // A new digest without a freeze leaves the published root as it was.
    service.hash_store.add_hash([5u64, 0, 0, 0, 0, 0, 0, 0]);
    assert_eq!(service.get_merkle_tree_root().unwrap(), first_root);

    // Freezing again publishes a different root.
    service.update_merkle_tree();
    let second_root = service.get_merkle_tree_root().unwrap();
    assert_ne!(second_root, first_root);
}

#[test]
fn test_freeze_timestamp_monotone() {
    let mut service = TimestampingService::<8, 0>::with_threads(1);
    service.hash_store.add_hash([1u64, 0, 0, 0, 0, 0, 0, 0]);
    service.update_merkle_tree();
    let first = service.get_last_update_timestamp().unwrap();
    service.hash_store.add_hash([2u64, 0, 0, 0, 0, 0, 0, 0]);
    service.update_merkle_tree();
    let second = service.get_last_update_timestamp().unwrap();
    assert!(second >= first);
}

#[test]
fn test_proof_absent_after_freeze() {
    let mut service = TimestampingService::<8, 0>::with_threads(1);
    service.hash_store.add_hash([1u64, 0, 0, 0, 0, 0, 0, 0]);
    service.update_merkle_tree();

    // A digest added after the freeze is in the store but not in the
    // last published tree.
    service.hash_store.add_hash([2u64, 0, 0, 0, 0, 0, 0, 0]);
    assert!(service.hash_store.contains(&[2u64, 0, 0, 0, 0, 0, 0, 0]));
    assert!(service.get_merkle_proof(&[2u64, 0, 0, 0, 0, 0, 0, 0]).is_none());
    assert!(service.get_merkle_proof(&[1u64, 0, 0, 0, 0, 0, 0, 0]).is_some());
}

#[test]
fn test_combined_hash_depends_on_both_inputs() {
    let a: Hash512 = [1u64, 0, 0, 0, 0, 0, 0, 0];
    let b: Hash512 = [2u64, 0, 0, 0, 0, 0, 0, 0];

    // Deterministic, and not the identity on either argument.
    assert_eq!(hash512(a, b), hash512(a, b));
    assert_ne!(hash512(a, b), a);
    assert_ne!(hash512(a, b), b);
    assert_ne!(hash512(a, b), hash512(b, a));
    assert_ne!(hash512(a, a), hash512(a, b));
    assert_ne!(hash512(a, b), hash512(b, b));
}
