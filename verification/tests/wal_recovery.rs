//! Crash recovery from the log.

use grumpydb::page::manager::PageManager;
use grumpydb::page::PAGE_SIZE;
use grumpydb::wal::applied_set::AppliedSet;
use grumpydb::wal::hlc::Hlc;
use grumpydb::wal::record::{WalRecord, NIL_NODE_ID};
use grumpydb::wal::recovery::{recover, recover_with_applied_set};
use grumpydb::wal::vclock::VectorClock;

fn setup() -> (PageManager, PageManager) {
    (PageManager::new(&[]), PageManager::new(&[]))
}

fn pw(lsn: u64, tx: u64, page_id: u32, before: &[u8], after: &[u8]) -> WalRecord {
    WalRecord::page_write(
        lsn,
        tx,
        NIL_NODE_ID,
        Hlc::from_packed(lsn),
        VectorClock::singleton(NIL_NODE_ID, lsn),
        page_id,
        before,
        after,
    )
}

fn commit(lsn: u64, tx: u64) -> WalRecord {
    WalRecord::commit(
        lsn,
        tx,
        NIL_NODE_ID,
        Hlc::from_packed(lsn),
        VectorClock::singleton(NIL_NODE_ID, lsn),
    )
}

fn cp(lsn: u64) -> WalRecord {
    WalRecord::checkpoint(
        lsn,
        NIL_NODE_ID,
        Hlc::from_packed(lsn),
        VectorClock::singleton(NIL_NODE_ID, lsn),
    )
}

#[test]
fn test_recovery_empty() {
    let (mut data, mut index) = setup();
    let result = recover(&[], &mut data, &mut index).unwrap();
    assert_eq!(result.redo_count, 0);
    assert_eq!(result.undo_count, 0);
}

#[test]
fn test_recovery_committed_tx_redo() {
    let (mut data, mut index) = setup();
    let page_id = data.allocate_page().unwrap();
    let before = [0xAA; PAGE_SIZE];
    data.write_page(page_id, &before).unwrap();

    let after = [0xBB; PAGE_SIZE];
    let records = vec![pw(1, 1, page_id, &before, &after), commit(2, 1)];

    let result = recover(&records, &mut data, &mut index).unwrap();
    assert_eq!(result.redo_count, 1);
    assert_eq!(result.undo_count, 0);

    let page = data.read_page(page_id).unwrap();
    assert_eq!(page[0], 0xBB);
}

#[test]
fn test_recovery_uncommitted_tx_undo() {
    let (mut data, mut index) = setup();
    let page_id = data.allocate_page().unwrap();
    let before = [0xAA; PAGE_SIZE];
    let after = [0xCC; PAGE_SIZE];
    data.write_page(page_id, &after).unwrap();

    let records = vec![pw(1, 1, page_id, &before, &after)];

    let result = recover(&records, &mut data, &mut index).unwrap();
    assert_eq!(result.redo_count, 0);
    assert_eq!(result.undo_count, 1);

    let page = data.read_page(page_id).unwrap();
    assert_eq!(page[0], 0xAA);
}

#[test]
fn test_recovery_mixed_transactions() {
    let (mut data, mut index) = setup();
    let p1 = data.allocate_page().unwrap();
    let p2 = data.allocate_page().unwrap();
    let before1 = [0x11; PAGE_SIZE];
    let after1 = [0x22; PAGE_SIZE];
    let before2 = [0x33; PAGE_SIZE];
    let after2 = [0x44; PAGE_SIZE];

    data.write_page(p1, &before1).unwrap();
    data.write_page(p2, &after2).unwrap();

    let records = vec![
        pw(1, 1, p1, &before1, &after1),
        commit(2, 1),
        pw(3, 2, p2, &before2, &after2),
    ];

    let result = recover(&records, &mut data, &mut index).unwrap();
    assert_eq!(result.redo_count, 1);
    assert_eq!(result.undo_count, 1);

    assert_eq!(data.read_page(p1).unwrap()[0], 0x22);
    assert_eq!(data.read_page(p2).unwrap()[0], 0x33);
}

#[test]
fn test_recovery_respects_checkpoint() {
    let (mut data, mut index) = setup();
    let p1 = data.allocate_page().unwrap();
    let before = [0; PAGE_SIZE];
    let after = [0xFF; PAGE_SIZE];
    data.write_page(p1, &before).unwrap();

    let records = vec![pw(1, 1, p1, &before, &after), commit(2, 1), cp(3)];

    let result = recover(&records, &mut data, &mut index).unwrap();
    assert_eq!(result.redo_count, 0);
    assert_eq!(result.undo_count, 0);
}

#[test]
fn test_recovery_with_applied_set_dedups() {
    let (mut data, mut index) = setup();
    let p1 = data.allocate_page().unwrap();
    let before = [0x00; PAGE_SIZE];
    let after = [0x77; PAGE_SIZE];
    data.write_page(p1, &before).unwrap();

    let records = vec![pw(1, 1, p1, &before, &after), commit(2, 1)];

    let mut applied = AppliedSet::default();
    // Pre-mark this HLC as already applied.
    applied.observe(NIL_NODE_ID, Hlc::from_packed(1));

    let result =
        recover_with_applied_set(&records, &mut data, &mut index, &mut applied).unwrap();
    assert_eq!(result.redo_count, 0);
    assert_eq!(result.skipped_duplicate, 1);
    // Because the redo was skipped, the page is still the before-image.
    assert_eq!(data.read_page(p1).unwrap()[0], 0x00);
}
