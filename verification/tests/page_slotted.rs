//! Slotted pages.

use grumpydb::page::slotted::SlottedPage;
use grumpydb::page::{PageType, PAGE_HEADER_SIZE, PAGE_SIZE, SLOT_SIZE};
use grumpydb::GrumpyError;

#[test]
fn test_slotted_page_new() {
    let page = SlottedPage::new(1);
    let hdr = page.header();
    assert_eq!(hdr.page_id, 1);
    assert_eq!(hdr.page_type, PageType::Data);
    assert_eq!(page.num_slots(), 0);
    assert_eq!(page.free_space(), PAGE_SIZE - PAGE_HEADER_SIZE);
}

#[test]
fn test_slotted_page_insert_and_get() {
    let mut page = SlottedPage::new(1);
    let data = b"hello, grumpydb!";
    let slot = page.insert(data).unwrap();
    assert_eq!(slot, 0);

    let retrieved = page.get(0).unwrap();
    assert_eq!(retrieved, data);
}

#[test]
fn test_slotted_page_insert_multiple() {
    let mut page = SlottedPage::new(1);
    let d0 = b"first";
    let d1 = b"second";
    let d2 = b"third";

    let s0 = page.insert(d0).unwrap();
    let s1 = page.insert(d1).unwrap();
    let s2 = page.insert(d2).unwrap();

    assert_eq!(s0, 0);
    assert_eq!(s1, 1);
    assert_eq!(s2, 2);
    assert_eq!(page.num_slots(), 3);

    assert_eq!(page.get(0).unwrap(), d0.as_slice());
    assert_eq!(page.get(1).unwrap(), d1.as_slice());
    assert_eq!(page.get(2).unwrap(), d2.as_slice());
}

#[test]
fn test_slotted_page_full() {
    let mut page = SlottedPage::new(1);
    // Fill the page with large tuples until full
    let big_data = vec![0xAB; 1000];
    let mut count = 0;
    loop {
        match page.insert(&big_data) {
            Ok(_) => count += 1,
            Err(GrumpyError::PageFull(_)) => break,
            Err(e) => panic!("unexpected error: {e:?}"),
        }
    }
    assert!(count > 0);
    assert!(count < 10); // sanity: can't fit more than ~8 at 1000 bytes each
}

#[test]
fn test_slotted_page_delete() {
    let mut page = SlottedPage::new(1);
    page.insert(b"keep").unwrap();
    page.insert(b"delete_me").unwrap();
    page.insert(b"also_keep").unwrap();

    page.delete(1).unwrap();

    assert_eq!(page.get(0).unwrap(), b"keep");
    assert!(page.get(1).is_err()); // deleted
    assert_eq!(page.get(2).unwrap(), b"also_keep");
    assert_eq!(page.live_tuple_count(), 2);
}

#[test]
fn test_slotted_page_delete_nonexistent() {
    let mut page = SlottedPage::new(1);
    assert!(page.delete(0).is_err());
}

#[test]
fn test_slotted_page_double_delete() {
    let mut page = SlottedPage::new(1);
    page.insert(b"data").unwrap();
    page.delete(0).unwrap();
    assert!(page.delete(0).is_err()); // already deleted
}

#[test]
fn test_slotted_page_compact() {
    let mut page = SlottedPage::new(1);
    page.insert(b"aaa").unwrap();
    page.insert(b"bbb").unwrap();
    page.insert(b"ccc").unwrap();

    let free_before = page.free_space();
    page.delete(1).unwrap(); // delete "bbb"

    page.compact();

    // After compaction, free space should increase (recovered "bbb" data space)
    let free_after = page.free_space();
    assert!(free_after > free_before);

    // Live tuples should still be accessible
    assert_eq!(page.get(0).unwrap(), b"aaa");
    assert!(page.get(1).is_err()); // still a tombstone
    assert_eq!(page.get(2).unwrap(), b"ccc");
    assert_eq!(page.live_tuple_count(), 2);
}

#[test]
fn test_slotted_page_update_in_place() {
    let mut page = SlottedPage::new(1);
    page.insert(b"hello world!!").unwrap();

    // Update with shorter data → in-place
    let new_slot = page.update(0, b"hi").unwrap();
    assert_eq!(new_slot, 0); // same slot
    assert_eq!(page.get(0).unwrap(), b"hi");
}

#[test]
fn test_slotted_page_update_larger() {
    let mut page = SlottedPage::new(1);
    page.insert(b"hi").unwrap();

    // Update with larger data → delete + re-insert
    let new_slot = page.update(0, b"hello world, this is much longer").unwrap();
    // Original slot 0 is now a tombstone, new data is in a new slot
    // (or reuses slot 0 tombstone)
    let retrieved = page.get(new_slot).unwrap();
    assert_eq!(retrieved, b"hello world, this is much longer");
}

#[test]
fn test_slotted_page_tombstone_reuse() {
    let mut page = SlottedPage::new(1);
    page.insert(b"first").unwrap(); // slot 0
    page.insert(b"second").unwrap(); // slot 1

    page.delete(0).unwrap(); // slot 0 → tombstone

    // Next insert should reuse slot 0
    let slot = page.insert(b"third").unwrap();
    assert_eq!(slot, 0);
    assert_eq!(page.get(0).unwrap(), b"third");
    assert_eq!(page.num_slots(), 2); // no new slot added
}

#[test]
fn test_slotted_page_get_out_of_range() {
    let page = SlottedPage::new(1);
    assert!(page.get(0).is_err());
    assert!(page.get(100).is_err());
}

#[test]
fn test_slotted_page_from_bytes_round_trip() {
    let mut page = SlottedPage::new(5);
    page.insert(b"test data").unwrap();

    let bytes = page.data;
    let restored = SlottedPage::from_bytes(bytes);
    assert_eq!(restored.get(0).unwrap(), b"test data");
    assert_eq!(restored.header().page_id, 5);
}

#[test]
fn test_slotted_page_free_space_decreases() {
    let mut page = SlottedPage::new(1);
    let initial = page.free_space();

    page.insert(b"some data").unwrap();
    let after = page.free_space();

    // Should decrease by data_len + SLOT_SIZE
    assert_eq!(initial - after, 9 + SLOT_SIZE);
}

#[test]
fn test_slotted_page_many_small_tuples() {
    let mut page = SlottedPage::new(1);
    let data = b"x";
    let mut count = 0;
    while page.insert(data).is_ok() {
        count += 1;
    }
    // Each tuple needs 1 (data) + 4 (slot) = 5 bytes
    // Available: 8160 bytes → ~1632 tuples
    assert!(count > 1000);
    assert!(count <= 1632);

    // Verify all accessible
    for i in 0..count {
        assert_eq!(page.get(i as u16).unwrap(), b"x");
    }
}
