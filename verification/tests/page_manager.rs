//! The page manager and its free-list.

use grumpydb::page::manager::PageManager;
use grumpydb::page::{PageHeader, PageType, PAGE_HEADER_SIZE, PAGE_SIZE};
use grumpydb::GrumpyError;

fn setup() -> PageManager {
    PageManager::new(&[])
}

#[test]
fn test_page_manager_new_creates_file() {
    let pm = setup();
    assert_eq!(pm.image().len(), PAGE_SIZE);
    assert_eq!(pm.num_pages(), 1); // page 0 (free-list)
}

#[test]
fn test_page_manager_allocate_returns_sequential_ids() {
    let mut pm = setup();
    let p1 = pm.allocate_page().unwrap();
    let p2 = pm.allocate_page().unwrap();
    let p3 = pm.allocate_page().unwrap();
    assert_eq!(p1, 1);
    assert_eq!(p2, 2);
    assert_eq!(p3, 3);
    assert_eq!(pm.num_pages(), 4);
}

#[test]
fn test_page_manager_read_write_round_trip() {
    let mut pm = setup();
    let page_id = pm.allocate_page().unwrap();

    let mut data = [0u8; PAGE_SIZE];
    data[100] = 0xAB;
    data[200] = 0xCD;
    data[PAGE_SIZE - 1] = 0xEF;
    pm.write_page(page_id, &data).unwrap();

    let read_back = pm.read_page(page_id).unwrap();
    assert_eq!(data, read_back);
}

#[test]
fn test_page_manager_read_nonexistent() {
    let pm = setup();
    let result = pm.read_page(999);
    assert!(matches!(result, Err(GrumpyError::PageNotFound(999))));
}

#[test]
fn test_page_manager_write_nonexistent() {
    let mut pm = setup();
    let data = [0u8; PAGE_SIZE];
    let result = pm.write_page(999, &data);
    assert!(matches!(result, Err(GrumpyError::PageNotFound(999))));
}

#[test]
fn test_page_manager_free_and_realloc() {
    let mut pm = setup();
    let p1 = pm.allocate_page().unwrap();
    let p2 = pm.allocate_page().unwrap();
    assert_eq!(p1, 1);
    assert_eq!(p2, 2);

    // Free page 1
    pm.free_page(p1).unwrap();

    // Next allocation should reuse page 1
    let p3 = pm.allocate_page().unwrap();
    assert_eq!(p3, 1); // reused!

    // Next allocation should extend
    let p4 = pm.allocate_page().unwrap();
    assert_eq!(p4, 3);
}

#[test]
fn test_page_manager_free_page_zero_fails() {
    let mut pm = setup();
    let result = pm.free_page(0);
    assert!(result.is_err());
}

#[test]
fn test_page_manager_free_clears_page() {
    let mut pm = setup();
    let page_id = pm.allocate_page().unwrap();

    // Write some data
    let mut data = [0xAA; PAGE_SIZE];
    let header = PageHeader::new(page_id, PageType::Data);
    header.write_to(&mut data);
    pm.write_page(page_id, &data).unwrap();

    // Free the page
    pm.free_page(page_id).unwrap();

    // Read it back — should be zeroed (with Free header)
    let read_back = pm.read_page(page_id).unwrap();
    let hdr = PageHeader::read_from(&read_back);
    assert_eq!(hdr.page_type, PageType::Free);
    // Data area should be zero
    assert!(read_back[PAGE_HEADER_SIZE..].iter().all(|&b| b == 0));
}

#[test]
fn test_page_manager_reopen_preserves_pages() {
    // Write some pages
    let image = {
        let mut pm = PageManager::new(&[]);
        let p1 = pm.allocate_page().unwrap();
        let mut data = [0u8; PAGE_SIZE];
        data[42] = 0x42;
        pm.write_page(p1, &data).unwrap();
        pm.image()
    };

    // Reopen and verify
    let pm = PageManager::new(&image);
    assert_eq!(pm.num_pages(), 2); // page 0 + page 1
    let data = pm.read_page(1).unwrap();
    assert_eq!(data[42], 0x42);
}

#[test]
fn test_page_manager_free_list_persists() {
    let image = {
        let mut pm = PageManager::new(&[]);
        let p1 = pm.allocate_page().unwrap();
        let _p2 = pm.allocate_page().unwrap();
        pm.free_page(p1).unwrap();
        pm.image()
    };

    // Reopen — free-list should still contain page 1
    let mut pm = PageManager::new(&image);
    let reused = pm.allocate_page().unwrap();
    assert_eq!(reused, 1);
}

#[test]
fn test_page_manager_multiple_free_realloc() {
    let mut pm = setup();
    let p1 = pm.allocate_page().unwrap();
    let p2 = pm.allocate_page().unwrap();
    let p3 = pm.allocate_page().unwrap();

    pm.free_page(p1).unwrap();
    pm.free_page(p3).unwrap();

    // Should reuse in LIFO order (stack)
    let r1 = pm.allocate_page().unwrap();
    let r2 = pm.allocate_page().unwrap();
    assert_eq!(r1, 3); // last freed = first reused
    assert_eq!(r2, 1);
    // p2 was never freed
    let _ = p2;
}

#[test]
fn test_page_manager_free_list_capacity() {
    let cap = PageManager::free_list_capacity();
    // (8192 - 32 - 4) / 4 = 2039
    assert_eq!(cap, 2039);
}
