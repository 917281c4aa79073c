//! The laws of the library on concrete values.

use grumpydb::btree::node::LeafNode;
use grumpydb::btree::BTree;
use grumpydb::buffer::pool::BufferPool;
use grumpydb::collection::raws::KeyBound;
use grumpydb::collection::Collection;
use grumpydb::database::versions::VersionStore;
use grumpydb::database::{check_stored_defaults, CollectionFiles};
use grumpydb::document::codec::{decode_from_cursor, decode_recursive, encode_to_vec};
use grumpydb::document::crdt::{
    merge_max_u64_maps, merge_payload, merge_set_maps, merge_sets, merge_values,
};
use grumpydb::document::value::{find_field, object, CrdtKind};
use grumpydb::document::Document;
use grumpydb::index::encoding::encode_sortable_value;
use grumpydb::index::{increment_bytes, IndexDefinition, SecondaryIndex};
use grumpydb::naming::{is_collection_dir, is_tenant_dir, validate_name};
use grumpydb::page::manager::PageManager;
use grumpydb::page::overflow::{free_overflow, read_overflow, write_overflow};
use grumpydb::page::slotted::SlottedPage;
use grumpydb::page::{PageHeader, PageType, PAGE_SIZE};
use grumpydb::server::{handle_key, is_handle_of};
use grumpydb::uid::Uuid;
use grumpydb::wal::applied_set::{AppliedSet, ObserveOutcome};
use grumpydb::wal::hlc::{wall_reading, Hlc, HlcClock, HlcError};
use grumpydb::wal::record::{WalRecord, NIL_NODE_ID};
use grumpydb::wal::recovery::recover;
use grumpydb::wal::vclock::{VClockOrdering, VectorClock};
use grumpydb::wal::writer::WalWriter;
use grumpydb::{Client, Database, GrumpyDb, GrumpyError, GrumpyServer, Value};

fn all() -> (KeyBound, KeyBound) {
    (KeyBound::Unbounded, KeyBound::Unbounded)
}

fn user(name: &str, age: i64) -> Value {
    object(vec![
        ("name".to_string(), Value::String(name.to_string())),
        ("age".to_string(), Value::Integer(age)),
    ])
}

fn open_database(wal: &[u8], files: Vec<CollectionFiles>) -> Database {
    let set = AppliedSet::default();
    Database::open_with(1, HlcClock::new(), wal, files, set, None, None).unwrap()
}

fn database_files(db: &Database) -> Vec<CollectionFiles> {
    let stored = |c: &Collection| CollectionFiles {
        name: c.name.clone(),
        data: c.data.pool.pm.image(),
        index: c.btree.pm.image(),
    };
    db.collections.iter().map(stored).collect()
}

// ── Durability ──────────────────────────────────────────────────────────

/// The engine opened again from its files as they are, without a flush.
fn crashed(db: &GrumpyDb) -> GrumpyDb {
    let data = db.collection.data.pool.pm.image();
    let index = db.collection.btree.pm.image();
    GrumpyDb::open(&data, &index, &db.wal.log).unwrap()
}

#[test]
fn documents_survive_a_crash() {
    let mut db = GrumpyDb::open(&[], &[], &[]).unwrap();
    for i in 0u128..60 {
        db.insert(Uuid::from_u128(i), Value::Integer(i as i64)).unwrap();
    }
    db.insert(Uuid::from_u128(500), Value::String("y".repeat(30_000))).unwrap();
    for i in 0u128..10 {
        db.delete(&Uuid::from_u128(i)).unwrap();
    }
    db.update(&Uuid::from_u128(20), Value::Bool(true)).unwrap();

    let mut again = crashed(&db);
    assert_eq!(again.document_count(), 51);
    assert_eq!(again.get(&Uuid::from_u128(3)).unwrap(), None);
    assert_eq!(again.get(&Uuid::from_u128(20)).unwrap(), Some(Value::Bool(true)));
    assert_eq!(again.get(&Uuid::from_u128(59)).unwrap(), Some(Value::Integer(59)));
    assert_eq!(
        again.get(&Uuid::from_u128(500)).unwrap(),
        Some(Value::String("y".repeat(30_000)))
    );
    let (s, e) = all();
    assert_eq!(again.scan(&s, &e).unwrap(), db.scan(&s, &e).unwrap());
}

#[test]
fn documents_survive_crashes_around_checkpoints() {
    let mut db = GrumpyDb::open_with_pool_capacity(&[], &[], &[], 2).unwrap();
    for i in 0u128..250 {
        db.insert(Uuid::from_u128(i), Value::String(format!("{i}").repeat(100))).unwrap();
        if i % 40 == 7 {
            db = crashed(&db);
        }
    }
    assert_eq!(db.document_count(), 250);
    for i in 0u128..250 {
        let expected = Value::String(format!("{i}").repeat(100));
        assert_eq!(db.get(&Uuid::from_u128(i)).unwrap(), Some(expected));
    }
}

#[test]
fn recovery_can_be_repeated() {
    let mut data = PageManager::new(&[]);
    let mut index = PageManager::new(&[]);
    let page = data.allocate_page().unwrap();
    let write = |lsn: u64, tx: u64, before: u8, after: u8| {
        WalRecord::page_write(
            lsn,
            tx,
            NIL_NODE_ID,
            Hlc::from_packed(lsn),
            VectorClock::singleton(NIL_NODE_ID, lsn),
            page,
            &[before; PAGE_SIZE],
            &[after; PAGE_SIZE],
        )
    };
    let commit = WalRecord::commit(
        2,
        1,
        NIL_NODE_ID,
        Hlc::from_packed(2),
        VectorClock::singleton(NIL_NODE_ID, 2),
    );
    let records = vec![write(1, 1, 1, 2), commit, write(3, 2, 2, 3)];
    recover(&records, &mut data, &mut index).unwrap();
    let once = data.image();
    assert_eq!(data.read_page(page).unwrap()[0], 2);
    recover(&records, &mut data, &mut index).unwrap();
    assert_eq!(data.image(), once);
}

#[test]
fn torn_writes_are_undone() {
    let mut db = GrumpyDb::open(&[], &[], &[]).unwrap();
    for i in 0u128..5 {
        db.insert(Uuid::from_u128(i), Value::Integer(i as i64)).unwrap();
    }
    db.flush().unwrap();
    let before = db.collection.data.pool.pm.image();
    db.insert(Uuid::from_u128(9), Value::Integer(9)).unwrap();
    let log = db.wal.log.clone();
    db.collection.flush().unwrap();
    let after = db.collection.data.pool.pm.image();
    assert_ne!(after, before);

    let mut other = WalWriter::new(&[]).unwrap();
    let empty = other.log.len();
    let tx = other.begin_tx();
    other.log_commit_at(tx, Hlc::pack(1, 0));
    let cut = &log[..log.len() - (other.log.len() - empty)];
    let records = WalWriter::new(cut).unwrap().read_all_records().unwrap();
    assert_eq!(records.len(), 1);

    let mut data = PageManager::new(&after);
    let mut index = PageManager::new(&db.collection.btree.pm.image());
    let result = recover(&records, &mut data, &mut index).unwrap();
    assert_eq!((result.redo_count, result.undo_count), (0, 1));
    assert_eq!(data.image(), before);

    let records = WalWriter::new(&log).unwrap().read_all_records().unwrap();
    let mut data = PageManager::new(&before);
    recover(&records, &mut data, &mut index).unwrap();
    assert_eq!(data.image(), after);
}

#[test]
fn a_pool_without_frames_is_exhausted() {
    let mut db = GrumpyDb::open_with_pool_capacity(&[], &[], &[], 0).unwrap();
    let key = Uuid::from_u128(1);
    assert_eq!(db.document_count(), 0);
    assert_eq!(db.get(&key).unwrap(), None);
    assert!(matches!(db.delete(&key), Err(GrumpyError::KeyNotFound(_))));
    let failed = db.insert(key, Value::Null);
    assert!(matches!(failed, Err(GrumpyError::BufferPoolExhausted)));

    let mut full = GrumpyDb::open(&[], &[], &[]).unwrap();
    full.insert(key, Value::Null).unwrap();
    let full = full.close().unwrap();
    let data = full.collection.data.pool.pm.image();
    let index = full.collection.btree.pm.image();
    let mut db = GrumpyDb::open_with_pool_capacity(&data, &index, &full.wal.log, 0).unwrap();
    assert_eq!(db.document_count(), 1);
    assert!(matches!(db.get(&key), Err(GrumpyError::BufferPoolExhausted)));
    assert!(matches!(db.delete(&key), Err(GrumpyError::BufferPoolExhausted)));
    let failed = db.update(&key, Value::Bool(true));
    assert!(matches!(failed, Err(GrumpyError::BufferPoolExhausted)));
    let (s, e) = all();
    assert!(matches!(db.scan(&s, &e), Err(GrumpyError::BufferPoolExhausted)));
    assert!(matches!(db.compact(), Err(GrumpyError::BufferPoolExhausted)));
}

#[test]
fn writes_count_towards_checkpoints() {
    let mut db = GrumpyDb::open(&[], &[], &[]).unwrap();
    for i in 0u128..99 {
        db.insert(Uuid::from_u128(i), Value::Null).unwrap();
        assert_eq!(db.writes_since_checkpoint, i as u32 + 1);
    }
    db.delete(&Uuid::from_u128(0)).unwrap();
    assert_eq!(db.writes_since_checkpoint, 0);
    assert_eq!(db.wal.log, WalWriter::new(&[]).unwrap().log);
}

#[test]
fn compaction_packs_pages() {
    let mut db = GrumpyDb::open(&[], &[], &[]).unwrap();
    for i in 0u128..200 {
        db.insert(Uuid::from_u128(i), Value::Bytes(vec![7; 1000])).unwrap();
    }
    for i in 0u128..200 {
        if i % 4 != 0 {
            db.delete(&Uuid::from_u128(i)).unwrap();
        }
    }
    assert_eq!(db.collection.data.pool.pm.pages.len(), 30);
    assert_eq!(db.compact().unwrap().documents, 50);
    // Seven documents of 1021 bytes to a page, and the free-list page.
    assert_eq!(db.collection.data.pool.pm.pages.len(), 9);
    assert_eq!(db.get(&Uuid::from_u128(196)).unwrap(), Some(Value::Bytes(vec![7; 1000])));

    // A long document takes a chain of its own, with a reference in a slot.
    db.insert(Uuid::from_u128(300), Value::Bytes(vec![8; 20_000])).unwrap();
    db.delete(&Uuid::from_u128(300)).unwrap();
    db.insert(Uuid::from_u128(301), Value::Bytes(vec![9; 9_000])).unwrap();
    assert_eq!(db.compact().unwrap().documents, 51);
    assert_eq!(db.collection.data.pool.pm.pages.len(), 11);
}

#[test]
fn page_compaction_can_be_repeated() {
    let mut page = SlottedPage::new(3);
    for i in 0u8..6 {
        page.insert(&vec![i; 100 + i as usize]).unwrap();
    }
    page.delete(1).unwrap();
    page.delete(4).unwrap();
    page.update(2, b"short").unwrap();
    page.compact();
    assert_eq!(page.free_space(), 8160 - 4 * 6 - (100 + 5 + 103 + 105));
    let once = page.data;
    page.compact();
    assert_eq!(page.data, once);
    assert_eq!(page.get(2).unwrap(), b"short");
    assert!(page.get(1).is_err());
}

#[test]
fn a_flushed_collection_is_opened_again() {
    let mut c = Collection::open("c", &[], &[], 4).unwrap();
    for i in 0u128..300 {
        let doc = Document::new(Uuid::from_u128(i * 7), Value::Integer(i as i64));
        c.insert_raw(doc.key, &doc.encode()).unwrap();
    }
    c.flush().unwrap();
    let data = c.data_page_manager().image();
    let index = c.index_page_manager().image();
    let mut again = Collection::open("c", &data, &index, 4).unwrap();
    let (s, e) = all();
    assert_eq!(again.scan_raw(&s, &e).unwrap(), c.scan_raw(&s, &e).unwrap());
    assert!(matches!(
        Collection::open("c", &data, &index[..8192], 4),
        Err(GrumpyError::PageNotFound(1))
    ));
    assert!(matches!(
        Collection::open("c", &data[..100], &index, 4),
        Err(GrumpyError::PageNotFound(0))
    ));
}

#[test]
fn a_closed_database_is_opened_again() {
    let mut db = open_database(&[], Vec::new());
    db.create_collection("a").unwrap();
    db.create_collection("b").unwrap();
    db.insert("a", Uuid::from_u128(1), Value::Integer(1)).unwrap();
    db.insert("b", Uuid::from_u128(1), Value::Integer(2)).unwrap();
    let closed = db.close().unwrap();
    let mut again = open_database(&closed.wal.log, database_files(&closed));
    assert_eq!(again.list_collections(), vec!["a", "b"]);
    assert_eq!(again.get("a", &Uuid::from_u128(1)).unwrap(), Some(Value::Integer(1)));
    assert_eq!(again.get("b", &Uuid::from_u128(1)).unwrap(), Some(Value::Integer(2)));
}

#[test]
fn a_database_survives_a_crash_without_a_flush() {
    let mut db = open_database(&[], Vec::new());
    db.create_collection("a").unwrap();
    for i in 0u128..30 {
        db.insert("a", Uuid::from_u128(i), Value::Integer(i as i64)).unwrap();
    }
    db.update("a", &Uuid::from_u128(4), Value::String("z".repeat(9_000))).unwrap();
    db.delete("a", &Uuid::from_u128(5)).unwrap();
    let mut again = open_database(&db.wal.log, database_files(&db));
    for i in 0u128..30 {
        let key = Uuid::from_u128(i);
        assert_eq!(again.get("a", &key).unwrap(), db.get("a", &key).unwrap());
    }
    assert_eq!(again.get("a", &Uuid::from_u128(5)).unwrap(), None);
    assert_eq!(again.document_count("a").unwrap(), 30);
}

#[test]
fn compaction_keeps_documents() {
    let mut db = open_database(&[], Vec::new());
    db.create_collection("a").unwrap();
    for i in 0u128..40 {
        db.insert("a", Uuid::from_u128(i), Value::Integer(i as i64)).unwrap();
    }
    for i in (0u128..40).step_by(3) {
        db.delete("a", &Uuid::from_u128(i)).unwrap();
    }
    let (s, e) = all();
    let before = db.scan("a", &s, &e).unwrap();
    assert_eq!(db.compact("a").unwrap(), 26);
    assert_eq!(db.scan("a", &s, &e).unwrap(), before);
    assert_eq!(db.document_count("a").unwrap(), 26);
}

#[test]
fn appended_records_are_read_back() {
    let mut w = WalWriter::new(&[]).unwrap();
    let tx = w.begin_tx();
    w.log_page_write_at(tx, 9, &[1; 4], &[2; 4], Hlc::pack(5, 0));
    w.log_commit_at(tx, Hlc::pack(5, 1));
    let again = WalWriter::new(&w.log).unwrap();
    let records = again.read_all_records().unwrap();
    assert_eq!(records.len(), 2);
    assert_eq!(records[0].after_image().unwrap(), &[2; 4]);
    assert_eq!(records[0].before_image().unwrap(), &[1; 4]);
    assert_eq!(records[1].hlc, Hlc::pack(5, 1));
    assert_eq!(again.current_lsn(), 3);
}

// ── Secondary indexes ───────────────────────────────────────────────────

#[test]
fn indexes_mirror_the_documents() {
    let mut db = open_database(&[], Vec::new());
    db.create_collection("users").unwrap();
    for i in 0u128..30 {
        db.insert("users", Uuid::from_u128(i), user("u", (i % 3) as i64)).unwrap();
    }
    db.create_index("users", "by_age", "age").unwrap();
    db.update("users", &Uuid::from_u128(0), user("u", 2)).unwrap();
    db.delete("users", &Uuid::from_u128(1)).unwrap();
    db.insert("users", Uuid::from_u128(100), user("n", 1)).unwrap();

    let ids = |rows: Vec<(Uuid, Value)>| -> Vec<u128> {
        let mut v: Vec<u128> = rows.iter().map(|r| r.0.as_u128()).collect();
        v.sort();
        v
    };
    let ones = ids(db.query("users", "by_age", &Value::Integer(1)).unwrap());
    assert_eq!(ones, vec![4, 7, 10, 13, 16, 19, 22, 25, 28, 100]);
    let twos = ids(db.query("users", "by_age", &Value::Integer(2)).unwrap());
    assert_eq!(twos, vec![0, 2, 5, 8, 11, 14, 17, 20, 23, 26, 29]);
    db.compact("users").unwrap();
    let again = ids(db.query("users", "by_age", &Value::Integer(1)).unwrap());
    assert_eq!(again, ones);
    let low = db.query_range("users", "by_age", &Value::Integer(0), &Value::Integer(2)).unwrap();
    assert_eq!(low.len(), 9 + 10);
}

#[test]
fn index_errors() {
    let mut db = open_database(&[], Vec::new());
    db.create_collection("c").unwrap();
    db.insert("c", Uuid::from_u128(1), object(vec![("f".to_string(), Value::Array(vec![]))]))
        .unwrap();
    assert!(matches!(db.create_index("c", "i", "f"), Err(GrumpyError::NotIndexable)));
    db.create_index("c", "i", "g").unwrap();
    assert!(matches!(db.create_index("c", "i", "g"), Err(GrumpyError::IndexAlreadyExists(_))));
    assert!(matches!(db.create_index("c", "Bad", "g"), Err(GrumpyError::InvalidName(_))));
    assert!(matches!(db.drop_index("c", "none"), Err(GrumpyError::IndexNotFound(_))));
    assert!(matches!(
        db.query("c", "none", &Value::Null),
        Err(GrumpyError::IndexNotFound(_))
    ));
    db.drop_index("c", "i").unwrap();
}

#[test]
fn byte_strings_are_incremented() {
    let next = |bytes: &[u8]| {
        let mut v = bytes.to_vec();
        increment_bytes(&mut v);
        v
    };
    assert_eq!(next(&[0xFF]), vec![0x01, 0x00]);
    assert_eq!(next(&[0xFF, 0xFF]), vec![0x01, 0x00, 0x00]);
    assert_eq!(next(&[0x01, 0xFF]), vec![0x02, 0x00]);
    assert_eq!(next(&[0x01, 0x02]), vec![0x01, 0x03]);
    assert_eq!(next(&[]), vec![0x01]);
}

#[test]
fn encodings_never_turn_the_order() {
    let code = |t: String| encode_sortable_value(&Value::String(t)).unwrap();
    let long = "x".repeat(128);
    assert_eq!(code(format!("{long}a")), code(format!("{long}b")));
    assert!(code("x".repeat(127)) < code(format!("{long}b")));
    assert!(code(format!("{long}b")) < code("y".to_string()));
}

#[test]
fn encodings_sort_as_their_values() {
    let enc = |v: Value| encode_sortable_value(&v).unwrap();
    let float = |f: f64| enc(Value::Float(f.to_bits()));
    assert!(float(-2.5) < float(-1.0));
    assert!(float(-1.0) < float(-0.0));
    assert!(float(0.5) < float(1e300));
    assert!(enc(Value::Integer(i64::MIN)) < enc(Value::Integer(-1)));
    assert_eq!(enc(Value::Integer(0)), vec![2, 0x80, 0, 0, 0, 0, 0, 0, 0]);
    assert!(enc(Value::String("ab".into())) < enc(Value::String("abc".into())));
    assert!(enc(Value::Bytes(vec![255])) < enc(Value::Ref("a".into(), Uuid::from_u128(0))));
}

// ── Clocks ──────────────────────────────────────────────────────────────

#[test]
fn clocks_advance() {
    let mut clock = HlcClock::seeded(100, 50);
    assert_eq!(clock.now_at(100).unwrap(), Hlc::pack(100, 1));
    assert_eq!(clock.now_at(90).unwrap(), Hlc::pack(100, 2));
    assert_eq!(clock.now_at(101).unwrap(), Hlc::pack(101, 0));
    assert_eq!(clock.update_at(Hlc::pack(140, 7), 101).unwrap(), Hlc::pack(140, 8));
    assert_eq!(clock.update_at(Hlc::pack(120, 0), 101).unwrap(), Hlc::pack(140, 9));
    assert!(matches!(
        clock.update_at(Hlc::pack(200, 0), 101),
        Err(HlcError::SkewExceeded(99, 50))
    ));
    assert!(matches!(
        clock.update_at(Hlc::pack(140, u16::MAX), 101),
        Err(HlcError::LogicalOverflow(_))
    ));
}

#[test]
fn clocks_never_run_backwards() {
    let last = (1u64 << 48) - 1;
    let mut clock = HlcClock::seeded(last - 1, 50);
    assert_eq!(clock.now_at(u64::MAX).unwrap(), Hlc::pack(last, 0));
    assert_eq!(clock.now_at(u64::MAX).unwrap(), Hlc::pack(last, 1));
    assert_eq!(clock.update_at(Hlc::pack(5, 0), 1 << 48).unwrap(), Hlc::pack(last, 2));
}

#[test]
fn clock_readings() {
    assert_eq!(wall_reading(Some(0)), Ok(0));
    assert_eq!(wall_reading(Some(1_700_000_000_000)), Ok(1_700_000_000_000));
    assert_eq!(wall_reading(None), Err(HlcError::BeforeEpoch));
}

#[test]
fn vector_clocks_merge_in_any_order() {
    let clock = |entries: &[(u128, u64)]| {
        let mut c = VectorClock::new();
        for (n, v) in entries {
            c.set(*n, *v);
        }
        c
    };
    let (a, b, c) = (clock(&[(1, 3), (2, 5)]), clock(&[(1, 7), (3, 9)]), clock(&[(2, 6)]));
    let merged = |x: &VectorClock, y: &VectorClock| {
        let mut m = x.dup();
        m.merge(y);
        m
    };
    assert_eq!(merged(&a, &b), merged(&b, &a));
    assert_eq!(merged(&merged(&a, &b), &c), merged(&a, &merged(&b, &c)));
    assert_eq!(merged(&a, &a), a);
    assert_eq!(a.compare(&merged(&a, &b)), VClockOrdering::LessThan);
}

#[test]
fn observing_twice_changes_nothing() {
    let mut set = AppliedSet::default();
    assert_eq!(set.observe(5, Hlc::pack(3, 0)), ObserveOutcome::New);
    let once = set.last_applied.dup();
    assert_eq!(set.observe(5, Hlc::pack(3, 0)), ObserveOutcome::AlreadyApplied);
    assert_eq!(set.last_applied, once);
    assert_eq!(set.high_water(6), Hlc::zero());
}

// ── Snapshots ───────────────────────────────────────────────────────────

#[test]
fn pruning_keeps_what_readers_see() {
    let mut store = VersionStore::new();
    let key = Uuid::from_u128(1);
    store.register_reader_snapshot(Hlc(10));
    for (h, v) in [(5, 1), (9, 2), (11, 3), (12, 4)] {
        store.append_version("c", key, Hlc(h), Some(Value::Integer(v)));
    }
    let seen = store.lookup_snapshot_version("c", &key, Hlc(10));
    assert_eq!(seen, Some(Some(Value::Integer(2))));
    assert_eq!(store.reader_watermark(), Some(Hlc(10)));
    store.unregister_reader_snapshot(Hlc(10));
    assert_eq!(store.version_len("c", &key), 1);
    let latest = store.lookup_snapshot_version("c", &key, Hlc(99));
    assert_eq!(latest, Some(Some(Value::Integer(4))));
}

#[test]
fn snapshots_hide_later_changes() {
    let mut db = open_database(&[], Vec::new());
    db.create_collection("c").unwrap();
    db.create_index("c", "by_age", "age").unwrap();
    db.insert("c", Uuid::from_u128(1), user("a", 1)).unwrap();
    let tx = db.begin_read();
    db.insert("c", Uuid::from_u128(2), user("b", 1)).unwrap();
    db.update("c", &Uuid::from_u128(1), user("a", 2)).unwrap();
    let (s, e) = all();
    let seen = tx.scan(&mut db, "c", &s, &e).unwrap();
    assert!(seen.iter().any(|r| r.0 == Uuid::from_u128(1) && r.1 == user("a", 1)));
    let hits = tx.query(&mut db, "c", "by_age", &Value::Integer(1)).unwrap();
    assert!(hits.iter().any(|r| r.0 == Uuid::from_u128(1)));
    let none = tx.query_range(&mut db, "c", "by_age", &Value::Integer(2), &Value::Integer(3));
    assert!(none.unwrap().is_empty());
    db.end_read(tx);
    assert_eq!(db.get("c", &Uuid::from_u128(1)).unwrap(), Some(user("a", 2)));
}

#[test]
fn snapshots_see_what_was_committed_before() {
    let mut db = open_database(&[], Vec::new());
    db.create_collection("c").unwrap();
    let (one, two) = (Uuid::from_u128(1), Uuid::from_u128(2));
    db.insert("c", one, Value::Integer(1)).unwrap();
    let first = db.begin_read();
    db.insert("c", two, Value::Integer(2)).unwrap();
    db.delete("c", &one).unwrap();
    let second = db.begin_read();
    assert!(first.snapshot_hlc() < second.snapshot_hlc());
    assert_eq!(db.versions.readers.len(), 2);

    assert_eq!(first.get(&mut db, "c", &one).unwrap(), Some(Value::Integer(1)));
    assert_eq!(first.get(&mut db, "c", &two).unwrap(), None);
    assert_eq!(second.get(&mut db, "c", &one).unwrap(), None);
    assert_eq!(second.get(&mut db, "c", &two).unwrap(), Some(Value::Integer(2)));
    let (s, e) = all();
    assert_eq!(first.scan(&mut db, "c", &s, &e).unwrap(), vec![(one, Value::Integer(1))]);
    assert_eq!(second.scan(&mut db, "c", &s, &e).unwrap(), vec![(two, Value::Integer(2))]);
}

// ── CRDTs ───────────────────────────────────────────────────────────────

#[test]
fn payloads_merge_in_any_order() {
    let merge = |k: CrdtKind, l: &[u8], r: &[u8]| merge_payload(k, l, r).unwrap();
    let lww: [&[u8]; 3] = [
        b"{\"adds\":{\"a\":1,\"b\":5},\"rems\":{}}",
        b"{\"adds\":{\"a\":4},\"rems\":{\"b\":6}}",
        b"{\"rems\":{\"b\":2,\"c\":3}}",
    ];
    let or: [&[u8]; 3] = [
        b"{\"adds\":{\"x\":[\"t2\",\"t1\"]}}",
        b"{\"adds\":{\"x\":[\"t3\"],\"y\":[]},\"rems\":{\"x\":[\"t1\"]}}",
        b"{}",
    ];
    let mvr: [&[u8]; 3] =
        [b"{\"values\":[\"q\",\"p\"]}", b"{\"values\":[\"r\"]}", b"{\"other\":1}"];
    for (kind, p) in [(CrdtKind::LwwSet, lww), (CrdtKind::OrSet, or), (CrdtKind::Mvr, mvr)] {
        assert_eq!(merge(kind, p[0], p[1]), merge(kind, p[1], p[0]));
        let left = merge(kind, &merge(kind, p[0], p[1]), p[2]);
        let right = merge(kind, p[0], &merge(kind, p[1], p[2]));
        assert_eq!(left, right);
        let once = merge(kind, p[0], p[0]);
        assert_eq!(merge(kind, &once, &once), once);
        let both = merge(kind, p[0], p[1]);
        assert_eq!(merge(kind, &both, p[0]), both);
        assert_eq!(merge(kind, &both, p[1]), both);
    }
    let counters = [7u64.to_le_bytes(), 3u64.to_le_bytes(), 9u64.to_le_bytes()];
    let kind = CrdtKind::GCounter;
    let left = merge(kind, &merge(kind, &counters[0], &counters[1]), &counters[2]);
    let right = merge(kind, &counters[0], &merge(kind, &counters[1], &counters[2]));
    assert_eq!(left, right);
    assert_eq!(left, 9u64.to_le_bytes());
    assert_eq!(
        merge(CrdtKind::LwwSet, lww[0], lww[1]),
        b"{\"adds\":{\"a\":4,\"b\":5},\"rems\":{\"b\":6}}"
    );
    assert_eq!(
        merge(CrdtKind::OrSet, or[0], or[1]),
        b"{\"adds\":{\"x\":[\"t1\",\"t2\",\"t3\"],\"y\":[]},\"rems\":{\"x\":[\"t1\"]}}"
    );
    assert_eq!(merge(CrdtKind::Mvr, mvr[0], mvr[1]), b"{\"values\":[\"p\",\"q\",\"r\"]}");
}

#[test]
fn parsed_payloads_merge() {
    let s = |t: &str| t.to_string();
    let counts = merge_max_u64_maps(
        &vec![(s("a"), 1), (s("c"), 9)],
        &vec![(s("a"), 3), (s("b"), 2), (s("c"), 4)],
    );
    assert_eq!(counts, vec![(s("a"), 3), (s("b"), 2), (s("c"), 9)]);
    let sets = merge_sets(&vec![s("a"), s("c")], &vec![s("b"), s("c")]);
    assert_eq!(sets, vec![s("a"), s("b"), s("c")]);
    let tags = merge_set_maps(
        &vec![(s("k"), vec![s("2")])],
        &vec![(s("j"), vec![]), (s("k"), vec![s("1"), s("2")])],
    );
    assert_eq!(tags, vec![(s("j"), vec![]), (s("k"), vec![s("1"), s("2")])]);
}

#[test]
fn merge_errors() {
    let crdt = |kind: CrdtKind, payload: Vec<u8>| Value::Crdt { kind, payload };
    let g = crdt(CrdtKind::GCounter, 3u64.to_le_bytes().to_vec());
    assert_eq!(merge_values(&Value::Null, &g).unwrap_err(), "left value is not CRDT");
    assert_eq!(merge_values(&g, &Value::Null).unwrap_err(), "right value is not CRDT");
    assert_eq!(merge_values(&g, &g).unwrap(), g);
    assert_eq!(
        merge_payload(CrdtKind::GCounter, &[0; 7], &[0; 8]).unwrap_err(),
        "invalid GCounter payload length: expected 8, got 7"
    );
    assert_eq!(
        merge_payload(CrdtKind::PNCounter, &[0; 16], &[0; 17]).unwrap_err(),
        "invalid PNCounter payload length: expected 16, got 17"
    );
    for kind in [CrdtKind::LwwSet, CrdtKind::OrSet, CrdtKind::Mvr] {
        let e = merge_payload(kind, b"{}", b"[").unwrap_err();
        assert!(e.starts_with("invalid ") && e.contains(" payload JSON: "));
    }
    let e = merge_payload(CrdtKind::LwwSet, b"{\"adds\":{\"a\":\"x\"}}", b"{}").unwrap_err();
    assert!(e.contains("invalid LwwSet payload JSON: "));
    let e = merge_payload(CrdtKind::OrSet, b"{\"rems\":{\"a\":1}}", b"{}").unwrap_err();
    assert!(e.contains("invalid OrSet payload JSON: "));
    let e = merge_payload(CrdtKind::Mvr, b"{\"values\":{}}", b"{}").unwrap_err();
    assert!(e.contains("invalid Mvr payload JSON: "));
}

// ── Tenants ─────────────────────────────────────────────────────────────

#[test]
fn clients_do_not_see_each_other() {
    let mut server = GrumpyServer::open();
    server.create_client("a").unwrap();
    server.create_client("b").unwrap();
    server.client("a").unwrap().create_database("db").unwrap();
    assert!(server.client("b").unwrap().list_databases().is_empty());
    assert!(matches!(
        server.client("b").unwrap().database("db"),
        Err(GrumpyError::DatabaseNotFound(_))
    ));
    let e = server.create_client("a").unwrap_err();
    assert_eq!(e.message(), "client not found: client 'a' already exists");
    server.drop_client("a").unwrap();
    assert_eq!(server.list_clients(), vec!["b"]);
    assert!(matches!(server.client("a"), Err(GrumpyError::ClientNotFound(_))));
    assert!(matches!(server.drop_client("a"), Err(GrumpyError::ClientNotFound(_))));
}

#[test]
fn databases_do_not_touch_each_other() {
    let mut client = Client::open("c");
    client.create_database_with("one", 1, HlcClock::new()).unwrap();
    client.create_database_with("two", 2, HlcClock::new()).unwrap();
    client.database("one").unwrap().create_collection("x").unwrap();
    assert!(client.database("two").unwrap().list_collections().is_empty());
    assert_eq!(client.database("two").unwrap().node_id(), 2);
    let e = client.create_database("one").unwrap_err();
    assert_eq!(e.message(), "database not found: database 'one' already exists");
    assert!(matches!(client.create_database("One"), Err(GrumpyError::InvalidName(_))));
    client.drop_database("one").unwrap();
    assert_eq!(client.list_databases(), vec!["two"]);
}

#[test]
fn handles_belong_to_their_client() {
    let key = handle_key("alice", "db");
    assert_eq!(key, "alice/db");
    assert!(is_handle_of(&key, "alice"));
    assert!(!is_handle_of(&key, "al"));
    assert!(!is_handle_of(&key, "alice2"));
}

#[test]
fn engine_directories_are_no_collections() {
    assert!(is_collection_dir("users"));
    assert!(!is_collection_dir("_database"));
    assert!(!is_collection_dir("_replication"));
    assert!(!is_collection_dir(".git"));
    assert!(is_tenant_dir("_database"));
    assert!(!is_tenant_dir(".hidden"));
    assert!(validate_name(&"a".repeat(64)).is_ok());
}

// ── Documents, pages and identifiers ────────────────────────────────────

#[test]
fn references_resolve_along_paths() {
    let mut db = open_database(&[], Vec::new());
    db.create_collection("c").unwrap();
    let leaf = Uuid::from_u128(1);
    db.insert("c", leaf, Value::Integer(7)).unwrap();
    let twice = Value::Array(vec![
        Value::Ref("c".into(), leaf),
        Value::Ref("c".into(), leaf),
        Value::Ref("c".into(), Uuid::from_u128(2)),
    ]);
    let resolved = db.resolve_deep(&twice, 4).unwrap();
    let items = resolved.as_array().unwrap();
    assert_eq!(items[0], Value::Integer(7));
    assert_eq!(items[1], Value::Integer(7));
}

#[test]
fn overflow_data_reads_back() {
    let mut pm = PageManager::new(&[]);
    let data: Vec<u8> = (0..20_000u32).map(|i| (i % 253) as u8).collect();
    let first = write_overflow(&mut pm, &data).unwrap();
    assert_eq!(read_overflow(&pm, first).unwrap(), data);
    assert_eq!(pm.num_pages(), 4);
}

#[test]
fn identifiers_have_canonical_text() {
    let id = Uuid::from_u128(0x0123_4567_89ab_cdef_0123_4567_89AB_CDEF);
    assert_eq!(id.to_text(), "01234567-89ab-cdef-0123-456789abcdef");
    assert_eq!(Uuid::parse_str(&id.to_text()), Some(id));
    assert_eq!(Uuid::parse_str("not an identifier"), None);
    assert_eq!(Uuid::nil().to_text(), "00000000-0000-0000-0000-000000000000");
    let random = Uuid::new_v4().as_u128();
    assert_eq!((random >> 76) & 0xf, 4);
    assert_eq!((random >> 62) & 0x3, 2);
    assert_eq!(Uuid::from_bytes(&id.to_bytes()), id);
}

#[test]
fn duplicate_and_missing_keys_are_named() {
    let mut db = GrumpyDb::open(&[], &[], &[]).unwrap();
    let key = Uuid::from_u128(5);
    db.insert(key, Value::Null).unwrap();
    let e = db.insert(key, Value::Null).unwrap_err();
    assert_eq!(e.message(), "key 00000000-0000-0000-0000-000000000005 already exists");
    let e = db.delete(&Uuid::from_u128(6)).unwrap_err();
    assert_eq!(e.message(), "key 00000000-0000-0000-0000-000000000006 not found");
}

#[test]
fn stored_defaults_are_checked() {
    assert_eq!(check_stored_defaults(Some(1), None).unwrap(), (Some(1), None));
    let e = check_stored_defaults(Some(0), Some(0)).unwrap_err();
    assert!(e.message().contains("read_concern must be >= 1"));
    let e = check_stored_defaults(None, Some(0)).unwrap_err();
    assert!(matches!(&e, GrumpyError::Corruption(_)));
    assert!(e.message().contains("write_concern must be >= 1"));
}

#[test]
fn objects_keep_their_fields_sorted() {
    let v = object(vec![
        ("b".to_string(), Value::Integer(1)),
        ("a".to_string(), Value::Integer(2)),
        ("b".to_string(), Value::Integer(3)),
    ]);
    let fields = v.as_object().unwrap();
    assert_eq!(fields.len(), 2);
    assert_eq!(find_field(fields, "a"), (0, true));
    assert_eq!(fields[1].1, Value::Integer(3));
    let doc = Document::new(Uuid::from_u128(9), v);
    let again = Document::decode(&doc.encode()).unwrap();
    assert_eq!(again.value, doc.value);
    assert_eq!(again.key, doc.key);
}

#[test]
fn trees_stay_shallow() {
    let mut tree = BTree::<Vec<u8>>::create_with(200).unwrap();
    for i in 0..3000u32 {
        tree.insert(i.to_be_bytes().to_vec(), i, 0).unwrap();
        let height = tree.meta.height as u32;
        assert!(height == 1 || i + 1 >= 1 << (height - 1));
    }
    assert!(tree.meta.height >= 3);
    for i in 0..3000u32 {
        tree.delete(&i.to_be_bytes().to_vec()).unwrap();
        let height = tree.meta.height as u32;
        assert!(height == 1 || 2999 - i >= 1 << (height - 1));
    }
    assert_eq!(tree.meta.height, 1);
}

#[test]
fn cursors_stay_at_their_end() {
    let mut tree = BTree::<Vec<u8>>::create_with(16).unwrap();
    for i in 0..3u8 {
        tree.insert(vec![i], i as u32, 0).unwrap();
    }
    let mut cursor = tree.cursor().unwrap();
    for i in 0..3u8 {
        assert_eq!(cursor.next_entry(&tree.pm).unwrap().unwrap().key, vec![i]);
    }
    for _ in 0..3 {
        assert!(cursor.next_entry(&tree.pm).unwrap().is_none());
    }
}

#[test]
fn cursors_stop_where_reading_stopped() {
    let mut bytes = encode_to_vec(&Value::Integer(5));
    bytes.extend_from_slice(&encode_to_vec(&Value::String("abcdef".to_string())));
    let cut = &bytes[..bytes.len() - 2];
    let mut cursor = cut;
    assert_eq!(decode_from_cursor(&mut cursor).unwrap(), Value::Integer(5));
    let e = decode_from_cursor(&mut cursor).unwrap_err();
    assert_eq!(e.message(), "codec error: unexpected end of data: need 6 bytes, have 4");
    assert_eq!(cursor, b"abcd");
    let mut cursor: &[u8] = &[0xEE, 1, 2];
    assert!(decode_from_cursor(&mut cursor).is_err());
    assert_eq!(cursor, &[1, 2]);
}

// ── Page files ──────────────────────────────────────────────────────────

#[test]
fn freed_overflow_pages_are_taken_again() {
    let mut pm = PageManager::new(&[]);
    let data: Vec<u8> = vec![5; 20_000];
    let first = write_overflow(&mut pm, &data).unwrap();
    assert_eq!((first, pm.num_pages()), (1, 4));
    free_overflow(&mut pm, first).unwrap();
    assert_eq!(pm.allocate_page().unwrap(), 3);
    assert_eq!(pm.allocate_page().unwrap(), 2);
    assert_eq!(pm.allocate_page().unwrap(), 1);
    assert_eq!(pm.allocate_page().unwrap(), 4);
}

#[test]
fn overflow_chains_outside_the_file_are_reported() {
    let mut pm = PageManager::new(&[]);
    assert!(matches!(free_overflow(&mut pm, 99), Err(GrumpyError::PageNotFound(99))));
    assert_eq!(pm.num_pages(), 1);
}

#[test]
fn long_documents_give_their_pages_back() {
    let mut c = Collection::open("c", &[], &[], 8).unwrap();
    for i in 0u128..20 {
        c.insert_raw(Uuid::from_u128(i), &[1; 20_000]).unwrap();
        c.delete_raw(&Uuid::from_u128(i)).unwrap();
    }
    // The free-list page, one page for documents and one chain.
    assert_eq!(c.data.pool.pm.num_pages(), 5);
}

/// The leaves of a tree file: page, next leaf and leaf before.
fn leaves(tree: &BTree<Uuid>) -> Vec<(u32, u32, u32)> {
    let pages = tree.pm.pages.iter().skip(2);
    pages
        .filter(|p| PageHeader::read_from(p).page_type == PageType::BTreeLeaf)
        .map(|p| LeafNode::<Uuid>::from_bytes(p))
        .map(|l| (l.page_id, l.next_leaf, l.prev_leaf))
        .collect()
}

#[test]
fn leaves_are_doubly_linked() {
    let mut tree = BTree::<Uuid>::create().unwrap();
    let linked = |tree: &BTree<Uuid>| {
        let all = leaves(tree);
        let leaf = |id: u32| all.iter().find(|l| l.0 == id).copied().unwrap();
        assert_eq!(all.iter().filter(|l| l.1 == 0).count(), 1);
        assert_eq!(all.iter().filter(|l| l.2 == 0).count(), 1);
        for l in &all {
            assert!(l.1 == 0 || leaf(l.1).2 == l.0);
            assert!(l.2 == 0 || leaf(l.2).1 == l.0);
        }
        all.len()
    };
    for i in 0..3000u128 {
        tree.insert(Uuid::from_u128(i * 7919 % 3001), i as u32, 0).unwrap();
    }
    assert!(linked(&tree) > 8);
    let pages = tree.pm.num_pages();
    for i in 0..2900u128 {
        tree.delete(&Uuid::from_u128(i * 7919 % 3001)).unwrap();
    }
    assert_eq!(linked(&tree), 1);

    // The pages of merged nodes are used before the file grows.
    for i in 0..1500u128 {
        tree.insert(Uuid::from_u128(10_000 + i), i as u32, 0).unwrap();
    }
    assert!(linked(&tree) > 5);
    assert_eq!(tree.pm.num_pages(), pages);
}

#[test]
fn flushing_counts_the_pages_with_changes() {
    let mut pool = BufferPool::new(3, PageManager::new(&[]));
    let (a, _) = pool.new_page().unwrap();
    let (b, _) = pool.new_page().unwrap();
    pool.unpin(a, false).unwrap();
    pool.unpin(b, false).unwrap();
    assert_eq!(pool.write_count, 0);
    pool.flush_all().unwrap();
    assert_eq!(pool.write_count, 2);
    pool.flush_all().unwrap();
    assert_eq!(pool.write_count, 2);
}

#[test]
fn a_full_pool_takes_no_new_page() {
    let mut pool = BufferPool::new(1, PageManager::new(&[]));
    pool.new_page().unwrap();
    let (clock, reads, writes) = (pool.clock, pool.read_count, pool.write_count);
    assert!(matches!(pool.new_page(), Err(GrumpyError::BufferPoolExhausted)));
    assert_eq!((pool.clock, pool.read_count, pool.write_count), (clock, reads, writes));
    // The page was taken before a frame was looked for.
    assert_eq!(pool.pm.num_pages(), 3);
}

// ── Deletions ───────────────────────────────────────────────────────────

fn tombstone() -> Value {
    Value::Tombstone { deleted_at_hlc: 7, vector_clock: Vec::new() }
}

#[test]
fn only_databases_drop_tombstones_on_compaction() {
    let (one, two) = (Uuid::from_u128(1), Uuid::from_u128(2));
    let mut engine = GrumpyDb::open(&[], &[], &[]).unwrap();
    engine.insert(one, tombstone()).unwrap();
    engine.insert(two, user("b", 2)).unwrap();
    assert_eq!(engine.compact().unwrap().documents, 2);
    assert_eq!(engine.document_count(), 2);

    let mut db = open_database(&[], Vec::new());
    db.create_collection("c").unwrap();
    db.insert("c", one, tombstone()).unwrap();
    db.insert("c", two, user("b", 2)).unwrap();
    assert_eq!(db.compact("c").unwrap(), 1);
    assert_eq!(db.document_count("c").unwrap(), 1);
}

#[test]
fn tombstones_are_deletions_to_a_snapshot() {
    let (one, two) = (Uuid::from_u128(1), Uuid::from_u128(2));
    let mut db = open_database(&[], Vec::new());
    db.create_collection("c").unwrap();
    db.insert("c", one, user("a", 1)).unwrap();
    db.insert("c", two, tombstone()).unwrap();
    let before = db.begin_read();
    db.update("c", &one, tombstone()).unwrap();
    db.update("c", &two, user("b", 2)).unwrap();
    let after = db.begin_read();
    assert_eq!(before.get(&mut db, "c", &one).unwrap(), Some(user("a", 1)));
    assert_eq!(before.get(&mut db, "c", &two).unwrap(), None);
    assert_eq!(after.get(&mut db, "c", &one).unwrap(), None);
    assert_eq!(after.get(&mut db, "c", &two).unwrap(), Some(user("b", 2)));
}

// ── Opening and closing ─────────────────────────────────────────────────

#[test]
fn a_closed_client_is_opened_again() {
    let mut client = Client::open("tenant");
    client.create_database("db").unwrap();
    let db = client.database("db").unwrap();
    let node = db.node_id();
    // A random identifier of version four.
    assert_eq!(Uuid::from_u128(node).to_text().as_bytes()[14], b'4');
    db.create_collection("c").unwrap();
    db.insert("c", Uuid::from_u128(1), user("a", 1)).unwrap();
    let mut closed = client.close().unwrap();
    let db = closed.database("db").unwrap();
    assert_eq!(db.node_id(), node);
    assert_eq!(db.wal.log, WalWriter::new(&[]).unwrap().log);
    let mut again = open_database(&[], database_files(db));
    assert_eq!(again.get("c", &Uuid::from_u128(1)).unwrap(), Some(user("a", 1)));
}

#[test]
fn a_new_engine_counts_from_one() {
    let db = GrumpyDb::open(&[], &[], &[]).unwrap();
    assert_eq!((db.wal.next_lsn, db.wal.next_tx_id, db.wal.node_id), (1, 1, NIL_NODE_ID));
    assert_eq!(db.wal.clock.state.logical(), 0);
    assert_eq!(db.collection.data.pool.pm.num_pages(), 2);
    assert_eq!(db.collection.btree.pm.num_pages(), 3);
}

#[test]
fn replay_goes_on_counting() {
    let mut db = GrumpyDb::open(&[], &[], &[]).unwrap();
    db.insert(Uuid::from_u128(1), user("a", 1)).unwrap();
    let (lsn, tx) = (db.wal.next_lsn, db.wal.next_tx_id);
    let again = crashed(&db);
    // Replay ends with a checkpoint record.
    assert_eq!((again.wal.next_lsn, again.wal.next_tx_id), (lsn + 1, tx));
}

// ── Failures ────────────────────────────────────────────────────────────

#[test]
fn values_are_compared_by_number() {
    let float = |f: f64| Value::Float(f.to_bits());
    assert_eq!(float(0.0), float(-0.0));
    assert_ne!(float(f64::NAN), float(f64::NAN));
    assert_ne!(float(1.0), Value::Integer(1));
    assert_eq!(Value::Array(vec![float(-0.0)]), Value::Array(vec![float(0.0)]));
    assert_ne!(user("a", 1), user("a", 2));
}

#[test]
fn index_failures_are_told_apart() {
    let def = IndexDefinition { name: "i".to_string(), field_path: "f".to_string() };
    let mut idx = SecondaryIndex::create(def).unwrap();
    let doc = |v: Value| object(vec![("f".to_string(), v)]);
    let id = Uuid::from_u128(1);
    idx.index_document(&id, &doc(Value::Integer(1))).unwrap();
    // A value without a key, and one with a key that is too long.
    let list = doc(Value::Array(Vec::new()));
    assert!(matches!(idx.index_document(&id, &list), Err(GrumpyError::NotIndexable)));
    let long = doc(Value::Ref("n".repeat(128), id));
    assert!(matches!(idx.index_document(&id, &long), Err(GrumpyError::NotIndexable)));
    // A key that is there already.
    let e = idx.index_document(&id, &doc(Value::Integer(1))).unwrap_err();
    assert_eq!(e.message(), "codec error: duplicate key in VarBTree: 25 bytes");
    assert_eq!(idx.count(), 1);

    // A rebuild stops at the document that is refused.
    let docs = vec![
        (Uuid::from_u128(1), doc(Value::Integer(5))),
        (Uuid::from_u128(2), list),
        (Uuid::from_u128(3), doc(Value::Integer(7))),
    ];
    assert!(matches!(idx.rebuild(&docs), Err(GrumpyError::NotIndexable)));
    assert_eq!(idx.count(), 1);
    assert_eq!(idx.lookup(&Value::Integer(5)).unwrap(), vec![Uuid::from_u128(1)]);
}

#[test]
fn compaction_reports_what_it_cannot_index() {
    let mut db = open_database(&[], Vec::new());
    db.create_collection("c").unwrap();
    db.create_index("c", "by_age", "age").unwrap();
    for i in 0u128..40 {
        db.insert("c", Uuid::from_u128(i), Value::Bytes(vec![1; 1000])).unwrap();
    }
    let odd = object(vec![("age".to_string(), Value::Array(Vec::new()))]);
    db.insert("c", Uuid::from_u128(50), odd.clone()).unwrap();
    for i in 1u128..40 {
        db.delete("c", &Uuid::from_u128(i)).unwrap();
    }
    let log = db.wal.log.clone();
    assert!(matches!(db.compact("c"), Err(GrumpyError::NotIndexable)));
    // The documents were packed, and no checkpoint was written.
    assert_eq!(db.collections[0].data.pool.pm.num_pages(), 2);
    assert_eq!(db.wal.log, log);
    assert_eq!(db.get("c", &Uuid::from_u128(50)).unwrap(), Some(odd));
}

#[test]
fn a_page_outside_the_file_costs_a_frame() {
    let mut pool = BufferPool::new(1, PageManager::new(&[]));
    let (a, f) = pool.new_page().unwrap();
    pool.get_frame_mut(f).data[100] = 7;
    pool.unpin(a, true).unwrap();
    let (clock, reads) = (pool.clock, pool.read_count);
    assert!(matches!(pool.fetch_page(9), Err(GrumpyError::PageNotFound(9))));
    // The page in the frame went to the file and left the pool.
    assert_eq!((pool.write_count, pool.clock, pool.read_count), (1, clock, reads));
    assert!(pool.page_table.is_empty());
    assert_eq!(pool.pm.read_page(a).unwrap()[100], 7);
}

#[test]
fn new_pages_come_from_the_end_of_the_free_list() {
    let mut pm = PageManager::new(&[]);
    for _ in 0..3 {
        pm.allocate_page().unwrap();
    }
    pm.free_page(1).unwrap();
    pm.free_page(3).unwrap();
    let mut pool = BufferPool::new(4, pm);
    // A cached free-list page does not stop it.
    pool.fetch_page(0).unwrap();
    assert_eq!(pool.new_page().unwrap().0, 3);
    assert_eq!(pool.new_page().unwrap().0, 1);
    assert_eq!(pool.new_page().unwrap().0, 4);
}

#[test]
fn any_depth_beyond_the_limit_is_reported() {
    for depth in [65, 66, 1000, usize::MAX] {
        let e = decode_recursive(&[0], 0, depth).unwrap_err();
        assert_eq!(e.why, "nesting depth exceeds maximum (64)");
    }
    assert!(decode_recursive(&[0], 0, 64).is_ok());
}
