//! The writer of the write-ahead log.

use grumpydb::wal::hlc::HlcClock;
use grumpydb::wal::record::{encode_v1_record, wal_magic, WalOpType, NIL_NODE_ID, WAL_VERSION_V2};
use grumpydb::wal::writer::WalWriter;

fn setup() -> WalWriter {
    WalWriter::new(&[]).unwrap()
}

#[test]
fn test_wal_writer_new_empty() {
    let wal = setup();
    assert_eq!(wal.current_lsn(), 1);
    assert_eq!(wal.file_version(), WAL_VERSION_V2);
}

#[test]
fn test_wal_fresh_file_starts_with_magic() {
    let wal = WalWriter::new(&[]).unwrap();
    let buf = &wal.log[..16];
    assert_eq!(&buf[..8], &wal_magic());
    assert_eq!(u16::from_le_bytes([buf[8], buf[9]]), WAL_VERSION_V2);
}

#[test]
fn test_wal_write_and_read_records() {
    let mut wal = setup();
    let tx = wal.begin_tx();
    wal.log_page_write(tx, 5, &[0; 100], &[1; 100]).unwrap();
    wal.log_commit(tx).unwrap();

    let records = wal.read_all_records().unwrap();
    assert_eq!(records.len(), 2);
    assert_eq!(records[0].op_type, WalOpType::PageWrite);
    assert_eq!(records[0].page_id, 5);
    assert_eq!(records[1].op_type, WalOpType::Commit);
    assert_eq!(records[1].tx_id, tx);
}

#[test]
fn test_wal_lsn_increments() {
    let mut wal = setup();
    let tx = wal.begin_tx();
    let (lsn1, _) = wal.log_page_write(tx, 1, &[], &[]).unwrap();
    let (lsn2, _) = wal.log_page_write(tx, 2, &[], &[]).unwrap();
    let (lsn3, _) = wal.log_commit(tx).unwrap();
    assert_eq!(lsn1, 1);
    assert_eq!(lsn2, 2);
    assert_eq!(lsn3, 3);
}

#[test]
fn test_wal_checkpoint() {
    let mut wal = setup();
    let (lsn, _) = wal.log_checkpoint().unwrap();
    assert_eq!(lsn, 1);
    let records = wal.read_all_records().unwrap();
    assert_eq!(records.len(), 1);
    assert_eq!(records[0].op_type, WalOpType::Checkpoint);
}

#[test]
fn test_wal_truncate_keeps_header() {
    let mut wal = setup();
    let tx = wal.begin_tx();
    wal.log_page_write(tx, 1, &[], &[]).unwrap();
    wal.log_commit(tx).unwrap();
    assert_eq!(wal.read_all_records().unwrap().len(), 2);

    wal.truncate().unwrap();
    assert_eq!(wal.read_all_records().unwrap().len(), 0);
    // Header is still present after truncate.
    assert_eq!(&wal.log[..8], &wal_magic());
}

#[test]
fn test_wal_reopen_resumes_lsn() {
    let image = {
        let mut wal = WalWriter::new(&[]).unwrap();
        let tx = wal.begin_tx();
        wal.log_page_write(tx, 1, &[0; 50], &[1; 50]).unwrap();
        wal.log_commit(tx).unwrap();
        wal.log
    };
    let mut wal = WalWriter::new(&image).unwrap();
    let (lsn, _) = wal.log_checkpoint().unwrap();
    assert!(lsn >= 3, "LSN should resume: got {lsn}");
    let records = wal.read_all_records().unwrap();
    assert_eq!(records.len(), 3);
}

#[test]
fn test_wal_v1_file_auto_migrates_on_open() {
    // A v1 file with two records (no header).
    let mut image = Vec::new();
    image.extend_from_slice(&encode_v1_record(1, 1, WalOpType::PageWrite, 5, &[0u8; 200]));
    image.extend_from_slice(&encode_v1_record(2, 1, WalOpType::Commit, 0, &[]));
    assert!(!image.is_empty());

    let mut wal = WalWriter::new(&image).unwrap();
    // After open, the log must start with the v2 magic.
    assert_eq!(&wal.log[..8], &wal_magic());

    let records = wal.read_all_records().unwrap();
    assert_eq!(records.len(), 2);
    assert_eq!(records[0].op_type, WalOpType::PageWrite);
    assert_eq!(records[1].op_type, WalOpType::Commit);
    // Origin should be NIL for migrated v1 records.
    assert_eq!(records[0].origin_node_id, NIL_NODE_ID);
    // Issuing a new write succeeds and the log remains v2.
    let tx = wal.begin_tx();
    wal.log_commit(tx).unwrap();
    assert_eq!(&wal.log[..8], &wal_magic());
}

#[test]
fn test_wal_multiple_transactions() {
    let mut wal = setup();
    let tx1 = wal.begin_tx();
    wal.log_page_write(tx1, 1, &[0; 50], &[1; 50]).unwrap();
    wal.log_commit(tx1).unwrap();

    let tx2 = wal.begin_tx();
    wal.log_page_write(tx2, 2, &[0; 50], &[2; 50]).unwrap();

    let records = wal.read_all_records().unwrap();
    assert_eq!(records.len(), 3);
    assert!(
        records
            .iter()
            .any(|r| r.tx_id == tx1 && r.op_type == WalOpType::Commit)
    );
    assert!(
        !records
            .iter()
            .any(|r| r.tx_id == tx2 && r.op_type == WalOpType::Commit)
    );
}

#[test]
fn test_wal_origin_and_hlc_round_trip() {
    let node = 0xdeadbeefcafef00d_u128;
    let clock = HlcClock::new();
    let mut wal = WalWriter::new_with_identity(&[], node, clock).unwrap();
    let tx = wal.begin_tx();
    let (_, hlc1) = wal.log_page_write(tx, 1, &[1; 8], &[2; 8]).unwrap();
    let (_, hlc2) = wal.log_commit(tx).unwrap();
    assert!(hlc2 > hlc1);
    let records = wal.read_all_records().unwrap();
    for r in &records {
        assert_eq!(r.origin_node_id, node);
        assert!(r.vector_clock.get(node) > 0);
    }
}
