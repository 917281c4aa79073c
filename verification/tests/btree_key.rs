//! Variable-length keys on disk.

use grumpydb::btree::key::{decode_var_key, encode_var_key, var_key_disk_size, VAR_KEY_MAX_SIZE};

#[test]
fn test_encode_decode_var_key() {
    let key = b"hello world";
    let encoded = encode_var_key(key);
    assert_eq!(encoded.len(), 2 + 11);

    let (decoded, consumed) = decode_var_key(&encoded);
    assert_eq!(decoded, b"hello world");
    assert_eq!(consumed, 13);
}

#[test]
fn test_encode_empty_key() {
    let encoded = encode_var_key(b"");
    assert_eq!(encoded.len(), 2);
    let (decoded, consumed) = decode_var_key(&encoded);
    assert_eq!(decoded, b"");
    assert_eq!(consumed, 2);
}

#[test]
fn test_encode_max_size_key() {
    let key = vec![0xAB; VAR_KEY_MAX_SIZE];
    let encoded = encode_var_key(&key);
    assert_eq!(encoded.len(), 2 + VAR_KEY_MAX_SIZE);
    let (decoded, _) = decode_var_key(&encoded);
    assert_eq!(decoded, &key[..]);
}

#[test]
fn test_var_key_ordering_preserved() {
    // Lexicographic byte ordering should be preserved
    let k1 = encode_var_key(b"aaa");
    let k2 = encode_var_key(b"bbb");
    let k3 = encode_var_key(b"aab");

    // Compare the raw key data (not the length prefix)
    let (d1, _) = decode_var_key(&k1);
    let (d2, _) = decode_var_key(&k2);
    let (d3, _) = decode_var_key(&k3);

    assert!(d1 < d2);
    assert!(d1 < d3);
    assert!(d3 < d2);
}

#[test]
fn test_var_key_disk_size() {
    assert_eq!(var_key_disk_size(b"hello"), 7);
    assert_eq!(var_key_disk_size(b""), 2);
}
