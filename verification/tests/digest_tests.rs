use timestamping::digest::Hash512;
use timestamping::digest::Hash512Error;
use timestamping::digest::Hash512Ops;

#[test]
fn test_hash512_bytes_conversion() {
    // Create a test hash
    let original_hash: Hash512 = [1u64; 8];

    // Test to_bytes
    let bytes = original_hash.to_bytes();
    assert_eq!(bytes.len(), 64);

    // Test from_bytes
    let decoded_hash = Hash512::from_bytes(&bytes).unwrap();
    assert_eq!(original_hash, decoded_hash);
}

#[test]
fn test_hash512_error_handling() {
    // Test invalid bytes length
    let invalid_bytes = vec![1, 2, 3]; // Too short
    let result = Hash512::from_bytes(&invalid_bytes);
    assert!(result.is_err());

    // Test empty bytes
    let result = Hash512::from_bytes(&[]);
    assert!(result.is_err());

    // Test correct length
    let valid_bytes = vec![0u8; 64];
    let result = Hash512::from_bytes(&valid_bytes);
    assert!(result.is_ok());
}

#[test]
fn test_hash512_byte_conversion() {
    // convert hash to bytes
    let hash = [1u64, 2u64, 3u64, 4u64, 5u64, 6u64, 7u64, 8u64];
    let bytes = hash.to_bytes();
    assert_eq!(bytes.len(), 64);

    // Convert back and verify
    let reconstructed = Hash512::from_bytes(&bytes).unwrap();
    assert_eq!(reconstructed, hash);

    // Test invalid length
    let invalid_bytes = vec![1u8; 32];
    assert!(Hash512::from_bytes(&invalid_bytes).is_err());
}

#[test]
fn storage_test_hash512_to_index() {
    let hash = [0x1234567890ABCDEFu64, 0, 0, 0, 0, 0, 0, 0];

    assert_eq!(hash.to_index(0, 8), 0x12);
    assert_eq!(hash.to_index(8, 8), 0x34);
    assert_eq!(hash.to_index(0, 1), 0);
    assert_eq!(hash.to_index(0, 64), 0x1234567890ABCDEF);
}

#[test]
fn test_hash512_equality() {
    let hash1 = [1u64, 2u64, 3u64, 4u64, 5u64, 6u64, 7u64, 8u64];
    let hash2 = [1u64, 2u64, 3u64, 4u64, 5u64, 6u64, 7u64, 8u64];
    let hash3 = [9u64, 10u64, 11u64, 12u64, 13u64, 14u64, 15u64, 16u64];

    assert_eq!(hash1, hash2);
    assert_ne!(hash1, hash3);
}

#[test]
fn test_hash512_ordering() {
    let hash1 = [1u64, 0, 0, 0, 0, 0, 0, 0];
    let hash2 = [2u64, 0, 0, 0, 0, 0, 0, 0];
    let hash3 = [1u64, 1u64, 0, 0, 0, 0, 0, 0];

    assert!(hash1 < hash2);
    assert!(hash1 < hash3);
    assert!(hash2 > hash3);
}

#[test]
fn test_to_bytes_little_endian_layout() {
    let hash = [0x0201u64, 0x0403u64, 0, 0, 0, 0, 0, 0];
    let bytes = hash.to_bytes();
    assert_eq!(bytes[0], 0x01);
    assert_eq!(bytes[1], 0x02);
    assert_eq!(bytes[8], 0x03);
    assert_eq!(bytes[9], 0x04);
    assert_eq!(bytes[63], 0x00);
}

#[test]
fn test_from_bytes_wrong_length_error_variant() {
    let result = Hash512::from_bytes(&[0u8; 63]);
    assert!(matches!(result, Err(Hash512Error::InvalidLengthError)));
    let result = Hash512::from_bytes(&[0u8; 65]);
    assert!(matches!(result, Err(Hash512Error::InvalidLengthError)));
}
