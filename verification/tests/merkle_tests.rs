use timestamping::digest::Hash512;
use timestamping::hashing::hash512;
use timestamping::merkle::MerkleTree;

#[test]
fn test_merkle_tree_basic() {
    let salt: Hash512 = [0, 0, 0, 0, 0, 0, 0, 0];
    let array = vec![
        [1u64, 0, 0, 0, 0, 0, 0, 0],
        [2u64, 0, 0, 0, 0, 0, 0, 0],
        [3u64, 0, 0, 0, 0, 0, 0, 0],
        [4u64, 0, 0, 0, 0, 0, 0, 0],
    ];

    let tree = MerkleTree::new(array, salt);

    assert_eq!(tree.leaf_count, 4);
    assert_eq!(tree.depth, 2);
    assert!(tree.root().is_some());
    assert_eq!(tree.size(), 7); // 2^3 - 1 = 7 nodes
}

#[test]
fn test_merkle_tree_empty() {
    let salt: Hash512 = [0, 0, 0, 0, 0, 0, 0, 0];
    let array = vec![];
    let tree = MerkleTree::new(array, salt);

    assert_eq!(tree.leaf_count, 0);
    assert_eq!(tree.depth, 0);
    assert!(tree.root().is_none());
    assert_eq!(tree.size(), 0);
}

#[test]
fn test_merkle_tree_single_element() {
    let salt: Hash512 = [0, 0, 0, 0, 0, 0, 0, 0];
    let hash = [1u64, 0, 0, 0, 0, 0, 0, 0];
    let array = vec![hash];
    let tree = MerkleTree::new(array, salt);

    assert_eq!(tree.leaf_count, 1);
    assert_eq!(tree.depth, 0);
    assert!(tree.root().is_some());
    assert_eq!(tree.root().unwrap(), hash);
}

#[test]
fn test_merkle_proof() {
    let salt: Hash512 = [0, 0, 0, 0, 0, 0, 0, 0];
    let hashes = vec![
        [1u64, 0, 0, 0, 0, 0, 0, 0],
        [2u64, 0, 0, 0, 0, 0, 0, 0],
        [3u64, 0, 0, 0, 0, 0, 0, 0],
        [4u64, 0, 0, 0, 0, 0, 0, 0],
    ];

    let salted_hashes = hashes.iter().map(|hash| hash512(*hash, salt)).collect();
    let tree = MerkleTree::new(salted_hashes, salt);

    // Test proof for first hash
    let proof = tree.get(&hashes[0]);
    assert!(proof.is_some());

    // Test proof for non-existent hash
    let non_existent = [999u64, 0, 0, 0, 0, 0, 0, 0];
    let proof = tree.get(&non_existent);
    assert!(proof.is_none());
}

#[test]
fn test_merkle_tree_large_dataset() {
    let salt: Hash512 = [0, 0, 0, 0, 0, 0, 0, 0];
    let mut hashes = Vec::new();
    for i in 0..100 {
        hashes.push([i as u64, 0, 0, 0, 0, 0, 0, 0]);
    }
    let salted_hashes = hashes.iter().map(|hash| hash512(*hash, salt)).collect();

    let tree = MerkleTree::new(salted_hashes, salt);

    assert_eq!(tree.leaf_count, 100);
    assert!(tree.root().is_some());

    // Test proof for middle element
    let proof = tree.get(&hashes[50]);
    assert!(proof.is_some());
}

#[test]
fn test_merkle_proof_verifies_against_root() {
    let salt: Hash512 = [5, 4, 3, 2, 1, 0, 0, 0];
    let hashes: Vec<Hash512> = (0..6).map(|i| [i as u64, 9, 9, 9, 0, 0, 0, 0]).collect();
    let salted: Vec<Hash512> = hashes.iter().map(|h| hash512(*h, salt)).collect();
    let tree = MerkleTree::new(salted, salt);
    let root = tree.root().unwrap();

    for h in &hashes {
        let path = tree.get(h).unwrap();
        // The salted leaf stands in the first pair.
        let leaf = hash512(*h, salt);
        assert!(path[0].0 == leaf || path[0].1 == leaf);
        // Hashing each pair yields a node of the next pair; the last
        // pair hashes to the root.
        let mut current = leaf;
        for (left, right) in &path {
            assert!(current == *left || current == *right);
            current = hash512(*left, *right);
        }
        assert_eq!(current, root);
    }
}

#[test]
fn test_merkle_padding_leaves_are_zero() {
    let salt: Hash512 = [0, 0, 0, 0, 0, 0, 0, 0];
    let leaves = vec![[1u64, 0, 0, 0, 0, 0, 0, 0], [2u64, 0, 0, 0, 0, 0, 0, 0], [
        3u64, 0, 0, 0, 0, 0, 0, 0,
    ]];
    let tree = MerkleTree::new(leaves, salt);
    assert_eq!(tree.depth, 2);
    assert_eq!(tree.size(), 7);
    // Leaves occupy positions 3..7; the fourth is the zero padding leaf.
    assert_eq!(tree.data[6], [0u64; 8]);
    assert_eq!(tree.data[3], [1u64, 0, 0, 0, 0, 0, 0, 0]);
}
