//! Collections of raw documents.

use grumpydb::collection::raws::KeyBound;
use grumpydb::collection::Collection;
use grumpydb::document::Document;
use grumpydb::uid::Uuid;
use grumpydb::{GrumpyError, Value};

fn setup() -> Collection {
    Collection::open("test", &[], &[], 16).unwrap()
}

#[test]
fn test_collection_open_creates_files() {
    let mut coll = Collection::open("my_coll", &[], &[], 16).unwrap();
    assert_eq!(coll.name(), "my_coll");
    assert!(!coll.data_page_manager().image().is_empty());
    assert!(!coll.index_page_manager().image().is_empty());
}

#[test]
fn test_collection_insert_and_get() {
    let mut coll = setup();
    let key = Uuid::new_v4();
    let doc = Document::new(key, Value::String("hello".into()));
    let encoded = doc.encode();

    let ((pid, sid), records) = coll.insert_raw(key, &encoded).unwrap();
    assert!(pid > 0 || sid == 0); // just check it returned something
    assert!(!records.is_empty());

    let raw = coll.get_raw(&key).unwrap().unwrap();
    let decoded = Document::decode(&raw).unwrap();
    assert_eq!(decoded.value, Value::String("hello".into()));
}

#[test]
fn test_collection_delete() {
    let mut coll = setup();
    let key = Uuid::new_v4();
    let doc = Document::new(key, Value::Integer(42));
    coll.insert_raw(key, &doc.encode()).unwrap();

    let records = coll.delete_raw(&key).unwrap();
    assert!(!records.is_empty());
    assert!(coll.get_raw(&key).unwrap().is_none());
}

#[test]
fn test_collection_scan() {
    let mut coll = setup();
    for i in 0u128..20 {
        let key = Uuid::from_u128(i);
        let doc = Document::new(key, Value::Integer(i as i64));
        coll.insert_raw(key, &doc.encode()).unwrap();
    }

    let results = coll.scan_raw(&KeyBound::Unbounded, &KeyBound::Unbounded).unwrap();
    assert_eq!(results.len(), 20);
}

#[test]
fn test_collection_document_count() {
    let mut coll = setup();
    assert_eq!(coll.document_count(), 0);

    let key = Uuid::new_v4();
    let doc = Document::new(key, Value::Null);
    coll.insert_raw(key, &doc.encode()).unwrap();
    assert_eq!(coll.document_count(), 1);
}

#[test]
fn test_collection_compact() {
    let mut coll = setup();

    for i in 0u128..100 {
        let key = Uuid::from_u128(i);
        let doc = Document::new(key, Value::Integer(i as i64));
        coll.insert_raw(key, &doc.encode()).unwrap();
    }

    for i in 0u128..50 {
        coll.delete_raw(&Uuid::from_u128(i)).unwrap();
    }

    let count = coll.compact().unwrap();
    assert_eq!(count, 50);
    assert_eq!(coll.document_count(), 50);

    for i in 50u128..100 {
        assert!(coll.get_raw(&Uuid::from_u128(i)).unwrap().is_some());
    }
}

#[test]
fn test_collection_overflow() {
    let mut coll = setup();
    let key = Uuid::new_v4();
    let large = Value::String("x".repeat(10_000));
    let doc = Document::new(key, large.clone());
    coll.insert_raw(key, &doc.encode()).unwrap();

    let raw = coll.get_raw(&key).unwrap().unwrap();
    let decoded = Document::decode(&raw).unwrap();
    assert_eq!(decoded.value, large);
}

#[test]
fn test_collection_persistence() {
    let key = Uuid::from_u128(42);

    let (data, index) = {
        let mut coll = Collection::open("persist", &[], &[], 16).unwrap();
        let doc = Document::new(key, Value::String("persistent".into()));
        coll.insert_raw(key, &doc.encode()).unwrap();
        coll.flush().unwrap();
        (coll.data_page_manager().image(), coll.index_page_manager().image())
    };

    let mut coll = Collection::open("persist", &data, &index, 16).unwrap();
    let raw = coll.get_raw(&key).unwrap().unwrap();
    let decoded = Document::decode(&raw).unwrap();
    assert_eq!(decoded.value, Value::String("persistent".into()));
}

#[test]
fn test_collection_duplicate_key() {
    let mut coll = setup();
    let key = Uuid::new_v4();
    let doc = Document::new(key, Value::Null);
    coll.insert_raw(key, &doc.encode()).unwrap();
    let result = coll.insert_raw(key, &doc.encode());
    assert!(matches!(result, Err(GrumpyError::DuplicateKey(_))));
}

#[test]
fn test_collection_pool_stats() {
    let coll = setup();
    let (reads, writes, cached, capacity) = coll.pool_stats();
    assert_eq!(reads, 0);
    assert_eq!(writes, 0);
    assert!(cached <= capacity);
}
