//! The single-collection engine.

use grumpydb::collection::raws::KeyBound;
use grumpydb::collection::DEFAULT_POOL_CAPACITY;
use grumpydb::document::value::object;
use grumpydb::uid::Uuid;
use grumpydb::{GrumpyDb, GrumpyError, Value};

fn setup() -> GrumpyDb {
    GrumpyDb::open(&[], &[], &[]).unwrap()
}

/// The data file, the index file and the log.
fn files(db: &GrumpyDb) -> (Vec<u8>, Vec<u8>, Vec<u8>) {
    let collection = &db.collection;
    (collection.data.pool.pm.image(), collection.btree.pm.image(), db.wal.log.clone())
}

#[test]
fn test_open_creates_files() {
    let db = GrumpyDb::open(&[], &[], &[]).unwrap();
    let (data, index, _) = files(&db);
    assert!(!data.is_empty());
    assert!(!index.is_empty());
    db.close().unwrap();
}

#[test]
fn test_insert_and_get() {
    let mut db = setup();
    let key = Uuid::new_v4();
    db.insert(key, Value::String("hello".into())).unwrap();
    let val = db.get(&key).unwrap();
    assert_eq!(val, Some(Value::String("hello".into())));
}

#[test]
fn test_get_nonexistent() {
    let mut db = setup();
    let val = db.get(&Uuid::new_v4()).unwrap();
    assert_eq!(val, None);
}

#[test]
fn test_insert_duplicate_key() {
    let mut db = setup();
    let key = Uuid::new_v4();
    db.insert(key, Value::Integer(1)).unwrap();
    let result = db.insert(key, Value::Integer(2));
    assert!(matches!(result, Err(GrumpyError::DuplicateKey(_))));
}

#[test]
fn test_delete() {
    let mut db = setup();
    let key = Uuid::new_v4();
    db.insert(key, Value::Integer(42)).unwrap();
    db.delete(&key).unwrap();
    assert_eq!(db.get(&key).unwrap(), None);
}

#[test]
fn test_delete_nonexistent() {
    let mut db = setup();
    let result = db.delete(&Uuid::new_v4());
    assert!(matches!(result, Err(GrumpyError::KeyNotFound(_))));
}

#[test]
fn test_update() {
    let mut db = setup();
    let key = Uuid::new_v4();
    db.insert(key, Value::Integer(1)).unwrap();
    db.update(&key, Value::Integer(2)).unwrap();
    assert_eq!(db.get(&key).unwrap(), Some(Value::Integer(2)));
}

#[test]
fn test_update_nonexistent() {
    let mut db = setup();
    let result = db.update(&Uuid::new_v4(), Value::Integer(1));
    assert!(matches!(result, Err(GrumpyError::KeyNotFound(_))));
}

#[test]
fn test_insert_complex_document() {
    let mut db = setup();
    let key = Uuid::new_v4();
    let value = object(vec![
        ("name".into(), Value::String("GrumpyDB".into())),
        ("version".into(), Value::Integer(1)),
        (
            "tags".into(),
            Value::Array(vec![
                Value::String("db".into()),
                Value::String("rust".into()),
            ]),
        ),
    ]);
    db.insert(key, value.clone()).unwrap();
    assert_eq!(db.get(&key).unwrap(), Some(value));
}

#[test]
fn test_crud_lifecycle() {
    let mut db = setup();
    let key = Uuid::new_v4();

    // Create
    db.insert(key, Value::String("v1".into())).unwrap();
    assert_eq!(db.get(&key).unwrap(), Some(Value::String("v1".into())));

    // Update
    db.update(&key, Value::String("v2".into())).unwrap();
    assert_eq!(db.get(&key).unwrap(), Some(Value::String("v2".into())));

    // Delete
    db.delete(&key).unwrap();
    assert_eq!(db.get(&key).unwrap(), None);
}

#[test]
fn test_multiple_inserts() {
    let mut db = setup();
    let mut keys = Vec::new();
    for i in 0..100 {
        let key = Uuid::from_u128(i);
        db.insert(key, Value::Integer(i as i64)).unwrap();
        keys.push(key);
    }
    for (i, key) in keys.iter().enumerate() {
        assert_eq!(db.get(key).unwrap(), Some(Value::Integer(i as i64)));
    }
}

#[test]
fn engine_test_persistence_across_reopen() {
    let key = Uuid::from_u128(42);

    let (data, index, wal) = {
        let mut db = GrumpyDb::open(&[], &[], &[]).unwrap();
        db.insert(key, Value::String("persistent".into())).unwrap();
        files(&db.close().unwrap())
    };

    let mut db = GrumpyDb::open(&data, &index, &wal).unwrap();
    let val = db.get(&key).unwrap();
    assert_eq!(val, Some(Value::String("persistent".into())));
}

#[test]
fn test_scan_range() {
    let mut db = setup();
    for i in 0u128..20 {
        db.insert(Uuid::from_u128(i), Value::Integer(i as i64))
            .unwrap();
    }

    let start = Uuid::from_u128(5);
    let end = Uuid::from_u128(10);
    let results = db.scan(&KeyBound::Included(start), &KeyBound::Excluded(end)).unwrap();

    assert_eq!(results.len(), 5);
    for (key, val) in &results {
        let i = key.as_u128();
        assert!((5..10).contains(&i));
        assert_eq!(*val, Value::Integer(i as i64));
    }
}

#[test]
fn test_scan_all() {
    let mut db = setup();
    for i in 0u128..10 {
        db.insert(Uuid::from_u128(i), Value::Integer(i as i64))
            .unwrap();
    }

    let results = db.scan(&KeyBound::Unbounded, &KeyBound::Unbounded).unwrap();
    assert_eq!(results.len(), 10);

    // Verify sorted order
    for i in 1..results.len() {
        assert!(results[i - 1].0 < results[i].0);
    }
}

#[test]
fn test_overflow_document() {
    let mut db = setup();
    let key = Uuid::new_v4();
    // Create a large document that will require overflow pages
    let large_string = "x".repeat(10_000);
    let value = Value::String(large_string.clone());
    db.insert(key, value).unwrap();

    let retrieved = db.get(&key).unwrap().unwrap();
    assert_eq!(retrieved, Value::String(large_string));
}

#[test]
fn test_delete_overflow_document() {
    let mut db = setup();
    let key = Uuid::new_v4();
    let value = Value::String("x".repeat(10_000));
    db.insert(key, value).unwrap();
    db.delete(&key).unwrap();
    assert_eq!(db.get(&key).unwrap(), None);
}

#[test]
fn test_buffer_pool_cache_hits() {
    // Small pool (4 frames) to exercise caching
    let mut db = GrumpyDb::open_with_pool_capacity(&[], &[], &[], 4).unwrap();

    // Insert 10 documents — they'll share the current data page (cache hit)
    let mut keys = Vec::new();
    for i in 0u128..10 {
        let key = Uuid::from_u128(i);
        db.insert(key, Value::Integer(i as i64)).unwrap();
        keys.push(key);
    }

    let (reads_before, _, _, _) = db.pool_stats();

    // Re-read all 10 — the data page should be cached (0 or minimal reads)
    for key in &keys {
        assert!(db.get(key).unwrap().is_some());
    }

    let (reads_after, _, cached, capacity) = db.pool_stats();
    // With a pool, most reads should come from cache
    assert!(cached <= capacity);
    // There should be far fewer disk reads than total get() calls
    assert!(
        reads_after - reads_before <= 2,
        "expected mostly cache hits, got {} disk reads",
        reads_after - reads_before
    );
}

#[test]
fn test_buffer_pool_flush_persists() {
    let key = Uuid::from_u128(99);

    let (data, index, wal) = {
        let mut db = GrumpyDb::open_with_pool_capacity(&[], &[], &[], 8).unwrap();
        db.insert(key, Value::String("cached".into())).unwrap();
        files(&db.close().unwrap())
    };

    let mut db = GrumpyDb::open_with_pool_capacity(&data, &index, &wal, 8).unwrap();
    let val = db.get(&key).unwrap();
    assert_eq!(val, Some(Value::String("cached".into())));
}

#[test]
fn test_pool_stats() {
    let db = setup();
    let (reads, writes, cached, capacity) = db.pool_stats();
    assert_eq!(reads, 0);
    assert_eq!(writes, 0);
    assert!(cached <= capacity);
    assert_eq!(capacity, DEFAULT_POOL_CAPACITY);
}

#[test]
fn test_compact_after_deletes() {
    let mut db = setup();

    // Insert 200 documents
    let mut keys = Vec::new();
    for i in 0u128..200 {
        let key = Uuid::from_u128(i);
        db.insert(key, Value::Integer(i as i64)).unwrap();
        keys.push(key);
    }
    assert_eq!(db.document_count(), 200);

    // Delete 100 of them
    for key in &keys[..100] {
        db.delete(key).unwrap();
    }
    assert_eq!(db.document_count(), 100);

    // Compact
    let result = db.compact().unwrap();
    assert_eq!(result.documents, 100);
    assert_eq!(db.document_count(), 100);

    // Verify surviving documents
    for key in &keys[100..] {
        let val = db.get(key).unwrap();
        assert!(val.is_some(), "key should survive compaction");
    }

    // Verify deleted documents stay deleted
    for key in &keys[..100] {
        assert_eq!(db.get(key).unwrap(), None);
    }
}

#[test]
fn test_compact_with_overflow() {
    let mut db = setup();

    let key1 = Uuid::from_u128(1);
    let key2 = Uuid::from_u128(2);

    db.insert(key1, Value::String("x".repeat(10_000))).unwrap();
    db.insert(key2, Value::Integer(42)).unwrap();
    db.delete(&key2).unwrap();

    let result = db.compact().unwrap();
    assert_eq!(result.documents, 1);

    let val = db.get(&key1).unwrap().unwrap();
    assert_eq!(val, Value::String("x".repeat(10_000)));
}

#[test]
fn test_compact_empty_db() {
    let mut db = setup();
    let result = db.compact().unwrap();
    assert_eq!(result.documents, 0);
}

#[test]
fn engine_test_document_count() {
    let mut db = setup();
    assert_eq!(db.document_count(), 0);
    let key = Uuid::new_v4();
    db.insert(key, Value::Integer(1)).unwrap();
    assert_eq!(db.document_count(), 1);
    db.delete(&key).unwrap();
    assert_eq!(db.document_count(), 0);
}
