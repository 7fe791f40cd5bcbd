use timestamping::digest::Hash512;
use timestamping::digest::Hash512Ops;
use timestamping::hashing::hash512;
use timestamping::sharded::MultiThreadedHashStore;
use timestamping::store::HashStore;

#[test]
fn test_hash_store_basic_operations() {
    let salt: Hash512 = [0, 0, 0, 0, 0, 0, 0, 0];
    let mut store = HashStore::<8, 0>::new(salt);

    // Test empty store
    assert_eq!(store.len(), 0);
    assert_eq!(store.occupied_slots(), 0);

    // Create a test hash
    let hash = [1u64, 2u64, 3u64, 4u64, 5u64, 6u64, 7u64, 8u64];

    // Test adding hash
    assert!(store.add_hash(hash));
    assert_eq!(store.len(), 1);
    assert_eq!(store.occupied_slots(), 1);
    assert!(store.contains(&hash));

    // Test adding duplicate
    assert!(!store.add_hash(hash));
    assert_eq!(store.len(), 1);
    assert_eq!(store.occupied_slots(), 1);

    // Test adding different hash
    let hash2 = [u64::MAX, 10u64, 11u64, 12u64, 13u64, 14u64, 15u64, 16u64];
    assert!(store.add_hash(hash2));
    assert_eq!(store.len(), 2);
    assert_eq!(store.occupied_slots(), 2);
}

#[test]
fn test_hash_store_ordering() {
    let salt: Hash512 = [0, 0, 0, 0, 0, 0, 0, 0];
    let mut store = HashStore::<8, 0>::new(salt);

    for i in 0..10 {
        let hash = [i as u64, 0, 0, 0, 0, 0, 0, 0];
        store.add_hash(hash);
    }

    assert_eq!(store.to_array().len(), 10);
    let mut array = store.to_array();
    array.sort_by(|a, b| a[0].cmp(&b[0]));
    assert_eq!(array, store.to_array());
}

#[test]
fn test_hash_store_collision_handling() {
    let salt: Hash512 = [0, 0, 0, 0, 0, 0, 0, 0];
    let mut store = HashStore::<2, 0>::new(salt); // Only 4 buckets

    // Create hashes where some will collide in the same bucket
    for i in 0..10 {
        let hash = [i as u64, 0, 0, 0, 0, 0, 0, 0];
        store.add_hash(hash);
    }

    assert_eq!(store.len(), 10);
    for i in 0..10 {
        let hash = [i as u64, 0, 0, 0, 0, 0, 0, 0];
        assert!(store.contains(&hash));
    }
}

#[test]
fn test_hash_store_functionality() {
    let salt: Hash512 = [0, 0, 0, 0, 0, 0, 0, 0];
    let mut store = HashStore::<8, 0>::new(salt);

    // Create test hashes from their 64-byte forms
    let hash1 = Hash512::from_bytes(&[1u8; 64]).unwrap();
    let hash2 = Hash512::from_bytes(&[2u8; 64]).unwrap();

    // Test initial state
    assert_eq!(store.len(), 0);
    assert!(!store.contains(&hash1));

    // Add hashes
    let is_new1 = store.add_hash(hash1);
    assert!(is_new1);
    assert_eq!(store.len(), 1);
    assert!(store.contains(&hash1));

    let is_new2 = store.add_hash(hash2);
    assert!(is_new2);
    assert_eq!(store.len(), 2);
    assert!(store.contains(&hash2));

    // Test duplicate hash
    let is_new_duplicate = store.add_hash(hash1);
    assert!(!is_new_duplicate);
    assert_eq!(store.len(), 2);

    // Test to_array: the store holds the salted forms of both hashes
    let array = store.to_array();
    assert_eq!(array.len(), 2);
    assert!(array.contains(&hash512(hash1, salt)));
    assert!(array.contains(&hash512(hash2, salt)));
}

#[test]
fn test_multi_threaded_hash_store() {
    let salt: Hash512 = [0, 0, 0, 0, 0, 0, 0, 0];
    let mut store = MultiThreadedHashStore::<8, 0>::new(4, salt);

    // Test empty store
    assert_eq!(store.len(), 0);
    assert_eq!(store.occupied_slots(), 0);

    let hash = [1u64, 2u64, 3u64, 4u64, 5u64, 6u64, 7u64, 8u64];

    // Test adding hash
    store.add_hash(hash);

    assert!(store.contains(&hash));

    // Test adding duplicate
    store.add_hash(hash);

    // Test adding different hash
    let hash2 = [9u64, 10u64, 11u64, 12u64, 13u64, 14u64, 15u64, 16u64];
    store.add_hash(hash2);

    assert!(store.contains(&hash2));
}

#[test]
fn test_insert_idempotent_counters() {
    let salt: Hash512 = [0, 0, 0, 0, 0, 0, 0, 0];
    let mut store = HashStore::<8, 0>::new(salt);
    let hash = [7u64, 7, 7, 7, 7, 7, 7, 7];

    assert!(store.add_hash(hash));
    let len_after_one = store.len();
    let filled_after_one = store.occupied_slots();
    let snap_after_one = store.to_array();

    assert!(!store.add_hash(hash));
    assert_eq!(store.len(), len_after_one);
    assert_eq!(store.occupied_slots(), filled_after_one);
    assert_eq!(store.to_array(), snap_after_one);
}

#[test]
fn test_snapshot_deterministic() {
    let salt: Hash512 = [3, 1, 4, 1, 5, 9, 2, 6];
    let mut store = HashStore::<4, 0>::new(salt);
    for i in 0..20 {
        store.add_hash([i as u64, i as u64, 0, 0, 0, 0, 0, 0]);
    }
    // Two snapshots with no intervening mutation are identical
    assert_eq!(store.to_array(), store.to_array());
}

#[test]
fn test_snapshot_sorted_and_distinct() {
    let salt: Hash512 = [0, 0, 0, 0, 0, 0, 0, 0];
    let mut store = HashStore::<3, 0>::new(salt);
    for i in 0..32 {
        store.add_hash([0, 0, 0, 0, 0, 0, 0, i as u64]);
    }
    let array = store.to_array();
    assert_eq!(array.len(), 32);
    for w in array.windows(2) {
        // strictly ascending, so also free of duplicates
        assert!(w[0] < w[1]);
    }
}

#[test]
fn test_sharded_store_aggregates() {
    let salt: Hash512 = [0, 0, 0, 0, 0, 0, 0, 0];
    let mut store = MultiThreadedHashStore::<4, 0>::new(8, salt);
    for i in 0..50 {
        // spread across shards via the leading bits of word 0
        store.add_hash([(i as u64) << 58, i as u64, 0, 0, 0, 0, 0, 0]);
    }
    assert_eq!(store.len(), 50);
    assert_eq!(store.to_array().len(), 50);
    for i in 0..50 {
        assert!(store.contains(&[(i as u64) << 58, i as u64, 0, 0, 0, 0, 0, 0]));
    }
    assert!(!store.contains(&[1u64, 2, 3, 4, 5, 6, 7, 8]));
}
