//! Records of the write-ahead log.

use grumpydb::wal::hlc::Hlc;
use grumpydb::wal::record::{
    build_wal_header, encode_v1_record, parse_wal_header, wal_magic, WalOpType, WalRecord,
    NIL_NODE_ID, WAL_HEADER_SIZE, WAL_VERSION_V2,
};
use grumpydb::wal::vclock::VectorClock;
use grumpydb::GrumpyError;

fn dummy_origin() -> u128 {
    0x0123_4567_89ab_cdef_0123_4567_89ab_cdef
}

#[test]
fn test_v2_commit_round_trip() {
    let rec = WalRecord::commit(
        1,
        42,
        dummy_origin(),
        Hlc::pack(1_700_000_000_000, 3),
        VectorClock::singleton(dummy_origin(), 1),
    );
    let bytes = rec.to_bytes();
    let (decoded, consumed) = WalRecord::from_bytes_v2(&bytes).unwrap();
    assert_eq!(consumed, bytes.len());
    assert_eq!(decoded, rec);
    assert!(decoded.is_valid());
}

#[test]
fn test_v2_checkpoint_round_trip() {
    let rec = WalRecord::checkpoint(
        100,
        dummy_origin(),
        Hlc::pack(1_700_000_000_000, 0),
        VectorClock::new(),
    );
    let bytes = rec.to_bytes();
    let (decoded, _) = WalRecord::from_bytes_v2(&bytes).unwrap();
    assert_eq!(decoded, rec);
}

#[test]
fn test_v2_encode_decode_round_trip() {
    let before = vec![0xAA; 8192];
    let after = vec![0xBB; 8192];
    let rec = WalRecord::page_write(
        5,
        1,
        dummy_origin(),
        Hlc::pack(1, 2),
        VectorClock::singleton(dummy_origin(), 7),
        42,
        &before,
        &after,
    );
    let bytes = rec.to_bytes();
    let (decoded, _) = WalRecord::from_bytes_v2(&bytes).unwrap();
    assert_eq!(decoded.lsn, 5);
    assert_eq!(decoded.page_id, 42);
    assert_eq!(decoded.after_image().unwrap(), after.as_slice());
    assert_eq!(decoded.before_image().unwrap(), before.as_slice());
    assert_eq!(decoded.origin_node_id, dummy_origin());
    assert_eq!(decoded.hlc, Hlc::pack(1, 2));
}

#[test]
fn test_v2_record_with_vclock() {
    let mut vc = VectorClock::new();
    vc.set(1, 100);
    vc.set(2, 200);
    vc.set(3, 300);
    let rec = WalRecord::commit(7, 7, dummy_origin(), Hlc::pack(99, 1), vc.clone());
    let bytes = rec.to_bytes();
    let (decoded, _) = WalRecord::from_bytes_v2(&bytes).unwrap();
    assert_eq!(decoded.vector_clock, vc);
}

#[test]
fn test_v1_record_decoded_as_v2() {
    let v1 = encode_v1_record(11, 3, WalOpType::Commit, 0, &[]);
    let (rec, consumed) = WalRecord::from_bytes_v1(&v1).unwrap();
    assert_eq!(consumed, v1.len());
    assert_eq!(rec.lsn, 11);
    assert_eq!(rec.tx_id, 3);
    assert_eq!(rec.op_type, WalOpType::Commit);
    assert_eq!(rec.origin_node_id, NIL_NODE_ID);
    assert_eq!(rec.hlc, Hlc::from_packed(11));
    assert_eq!(rec.vector_clock, VectorClock::singleton(NIL_NODE_ID, 11));
}

#[test]
fn test_v1_page_write_decoded_as_v2() {
    let before = vec![1u8; 64];
    let after = vec![2u8; 64];
    let mut payload = Vec::new();
    payload.extend_from_slice(&before);
    payload.extend_from_slice(&after);
    let v1 = encode_v1_record(5, 2, WalOpType::PageWrite, 99, &payload);
    let (rec, _) = WalRecord::from_bytes_v1(&v1).unwrap();
    assert_eq!(rec.op_type, WalOpType::PageWrite);
    assert_eq!(rec.page_id, 99);
    // v1 stored before++after; we keep the bytes verbatim. The
    // recovery code reads the two halves symmetrically so the
    // ordering convention only matters when calling
    // page_images/before_image/after_image, which always interpret
    // the v2 layout (after first, then before).
    assert_eq!(&rec.data[..64], before.as_slice());
    assert_eq!(&rec.data[64..], after.as_slice());
    let bytes = rec.to_bytes();
    let (re, _) = WalRecord::from_bytes_v2(&bytes).unwrap();
    assert_eq!(re, rec);
}

#[test]
fn test_v2_record_checksum_mismatch_returns_error() {
    let rec = WalRecord::commit(1, 1, dummy_origin(), Hlc::pack(1, 0), VectorClock::new());
    let mut bytes = rec.to_bytes();
    let last = bytes.len() - 1;
    bytes[last] ^= 0xFF;
    assert!(WalRecord::from_bytes_v2(&bytes).is_err());
}

#[test]
fn test_truncated_v2_record_detected() {
    let rec = WalRecord::commit(1, 1, dummy_origin(), Hlc::pack(1, 0), VectorClock::new());
    let bytes = rec.to_bytes();
    assert!(WalRecord::from_bytes_v2(&bytes[..10]).is_err());
}

#[test]
fn test_op_type_from_u8() {
    assert_eq!(WalOpType::from_u8(1), Some(WalOpType::PageWrite));
    assert_eq!(WalOpType::from_u8(2), Some(WalOpType::Commit));
    assert_eq!(WalOpType::from_u8(4), Some(WalOpType::Checkpoint));
    assert_eq!(WalOpType::from_u8(99), None);
}

#[test]
fn test_v2_multiple_records_sequential() {
    let r1 = WalRecord::page_write(
        1,
        1,
        dummy_origin(),
        Hlc::pack(1, 0),
        VectorClock::new(),
        5,
        &[0; 100],
        &[1; 100],
    );
    let r2 = WalRecord::commit(2, 1, dummy_origin(), Hlc::pack(2, 0), VectorClock::new());
    let r3 = WalRecord::checkpoint(3, dummy_origin(), Hlc::pack(3, 0), VectorClock::new());

    let mut buf = Vec::new();
    buf.extend_from_slice(&r1.to_bytes());
    buf.extend_from_slice(&r2.to_bytes());
    buf.extend_from_slice(&r3.to_bytes());

    let (d1, c1) = WalRecord::from_bytes_v2(&buf).unwrap();
    let (d2, c2) = WalRecord::from_bytes_v2(&buf[c1..]).unwrap();
    let (d3, _) = WalRecord::from_bytes_v2(&buf[c1 + c2..]).unwrap();

    assert_eq!(d1.lsn, 1);
    assert_eq!(d2.op_type, WalOpType::Commit);
    assert_eq!(d3.op_type, WalOpType::Checkpoint);
}

#[test]
fn test_build_and_parse_wal_header() {
    let hdr = build_wal_header(WAL_VERSION_V2);
    assert_eq!(&hdr[..8], &wal_magic());
    assert_eq!(u16::from_le_bytes([hdr[8], hdr[9]]), WAL_VERSION_V2);
    for b in &hdr[10..18] {
        assert_eq!(*b, 0);
    }
    assert_eq!(hdr.len(), WAL_HEADER_SIZE);
    assert_eq!(parse_wal_header(&hdr).unwrap(), WAL_VERSION_V2);
}

#[test]
fn test_parse_wal_header_rejects_unknown_version() {
    let mut hdr = build_wal_header(99);
    hdr[8] = 99;
    hdr[9] = 0;
    assert!(matches!(
        parse_wal_header(&hdr),
        Err(GrumpyError::UnsupportedWalVersion(99))
    ));
}
