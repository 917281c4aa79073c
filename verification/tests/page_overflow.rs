//! Overflow chains.

use grumpydb::page::manager::PageManager;
use grumpydb::page::overflow::{
    decode_overflow_ref, encode_overflow_ref, free_overflow, is_overflow, read_overflow,
    write_overflow,
};
use grumpydb::page::PAGE_USABLE_SPACE;

fn setup() -> PageManager {
    PageManager::new(&[])
}

#[test]
fn test_overflow_ref_encode_decode() {
    let encoded = encode_overflow_ref(42, 99999);
    assert!(is_overflow(&encoded));
    let (pid, len) = decode_overflow_ref(&encoded).unwrap();
    assert_eq!(pid, 42);
    assert_eq!(len, 99999);
}

#[test]
fn test_is_overflow_false_for_normal_data() {
    assert!(!is_overflow(b"hello"));
    assert!(!is_overflow(&[]));
    assert!(!is_overflow(&[0x00; 9]));
}

#[test]
fn test_overflow_single_page_round_trip() {
    let mut pm = setup();
    let data = vec![0xAB; 1000]; // fits in one overflow page

    let first_id = write_overflow(&mut pm, &data).unwrap();
    let read_back = read_overflow(&pm, first_id).unwrap();
    assert_eq!(data, read_back);
}

#[test]
fn test_overflow_multi_page_round_trip() {
    let mut pm = setup();
    // Create data that spans 3 overflow pages
    let data: Vec<u8> = (0..PAGE_USABLE_SPACE * 3 - 100)
        .map(|i| (i % 256) as u8)
        .collect();

    let first_id = write_overflow(&mut pm, &data).unwrap();
    let read_back = read_overflow(&pm, first_id).unwrap();
    assert_eq!(data, read_back);
}

#[test]
fn test_overflow_exact_page_boundary() {
    let mut pm = setup();
    // Data that fills exactly 2 overflow pages
    let data = vec![0x42; PAGE_USABLE_SPACE * 2];

    let first_id = write_overflow(&mut pm, &data).unwrap();
    let read_back = read_overflow(&pm, first_id).unwrap();
    assert_eq!(data, read_back);
}

#[test]
fn test_overflow_free_chain() {
    let mut pm = setup();
    let data = vec![0xCD; PAGE_USABLE_SPACE * 3];

    let pages_before = pm.num_pages();
    let first_id = write_overflow(&mut pm, &data).unwrap();
    let pages_after_write = pm.num_pages();
    assert_eq!(pages_after_write - pages_before, 3);

    // Free the chain
    free_overflow(&mut pm, first_id).unwrap();

    // Allocate 3 pages — should reuse the freed ones
    let r1 = pm.allocate_page().unwrap();
    let r2 = pm.allocate_page().unwrap();
    let r3 = pm.allocate_page().unwrap();
    // No new pages should have been added to the file
    assert_eq!(pm.num_pages(), pages_after_write);
    // Reused page IDs should be from the freed chain
    let mut reused = [r1, r2, r3];
    reused.sort();
    assert!(reused.iter().all(|&id| (first_id..first_id + 3).contains(&id)));
}

#[test]
fn test_overflow_large_data() {
    let mut pm = setup();
    // ~50 KiB of data → should span ~7 overflow pages
    let data: Vec<u8> = (0..50_000).map(|i| (i % 251) as u8).collect();

    let first_id = write_overflow(&mut pm, &data).unwrap();
    let read_back = read_overflow(&pm, first_id).unwrap();
    assert_eq!(data.len(), read_back.len());
    assert_eq!(data, read_back);
}

#[test]
fn test_overflow_small_data() {
    let mut pm = setup();
    let data = b"tiny";

    let first_id = write_overflow(&mut pm, data).unwrap();
    let read_back = read_overflow(&pm, first_id).unwrap();
    assert_eq!(data.as_slice(), read_back.as_slice());
}
