//! Page headers, page types and checksums.

use grumpydb::page::{
    stamp_checksum, verify_checksum, PageHeader, PageType, PAGE_HEADER_SIZE, PAGE_SIZE,
    PAGE_USABLE_SPACE, SLOT_SIZE,
};

#[test]
fn test_page_header_round_trip() {
    let header = PageHeader {
        page_id: 42,
        page_type: PageType::Data,
        flags: 0x01,
        num_slots: 5,
        free_space_start: 52,
        free_space_end: 7000,
        next_page_id: 43,
        prev_page_id: 41,
        lsn: 123456789,
        checksum: 0xDEADBEEF,
    };

    let mut buf = [0u8; PAGE_SIZE];
    header.write_to(&mut buf);
    let restored = PageHeader::read_from(&buf);

    assert_eq!(header, restored);
}

#[test]
fn test_page_header_defaults() {
    let header = PageHeader::new(1, PageType::Data);
    assert_eq!(header.page_id, 1);
    assert_eq!(header.page_type, PageType::Data);
    assert_eq!(header.num_slots, 0);
    assert_eq!(header.free_space_start, PAGE_HEADER_SIZE as u16);
    assert_eq!(header.free_space_end, PAGE_SIZE as u16);
}

#[test]
fn test_page_type_from_u8() {
    assert_eq!(PageType::from_u8(0), Some(PageType::Free));
    assert_eq!(PageType::from_u8(1), Some(PageType::Data));
    assert_eq!(PageType::from_u8(4), Some(PageType::Overflow));
    assert_eq!(PageType::from_u8(99), None);
}

#[test]
fn test_constants() {
    assert_eq!(PAGE_SIZE, 8192);
    assert_eq!(PAGE_HEADER_SIZE, 32);
    assert_eq!(PAGE_USABLE_SPACE, 8160);
    assert_eq!(SLOT_SIZE, 4);
}

#[test]
fn test_checksum_round_trip() {
    let mut buf = [0u8; PAGE_SIZE];
    let header = PageHeader::new(1, PageType::Data);
    header.write_to(&mut buf);
    buf[100] = 0xAB; // some data

    stamp_checksum(&mut buf);
    let stored = u32::from_le_bytes(buf[28..32].try_into().unwrap());
    assert_ne!(stored, 0);

    // Verify should pass
    assert!(verify_checksum(&buf, 1).is_ok());
}

#[test]
fn test_checksum_detects_corruption() {
    let mut buf = [0u8; PAGE_SIZE];
    let header = PageHeader::new(1, PageType::Data);
    header.write_to(&mut buf);
    stamp_checksum(&mut buf);

    // Corrupt a byte
    buf[100] ^= 0xFF;

    let result = verify_checksum(&buf, 1);
    assert!(matches!(
        result,
        Err(grumpydb::error::GrumpyError::ChecksumMismatch { .. })
    ));
}

#[test]
fn test_checksum_zero_skips_verification() {
    // A page with checksum == 0 (legacy/never stamped) should pass
    let mut buf = [0u8; PAGE_SIZE];
    buf[28..32].copy_from_slice(&0u32.to_le_bytes());
    assert!(verify_checksum(&buf, 0).is_ok());
}
