//! Databases of named collections.

use grumpydb::collection::raws::KeyBound;
use grumpydb::collection::Collection;
use grumpydb::database::versions::VersionStore;
use grumpydb::database::{check_stored_defaults, CollectionFiles};
use grumpydb::document::value::{find_field, object};
use grumpydb::uid::Uuid;
use grumpydb::wal::applied_set::AppliedSet;
use grumpydb::wal::hlc::{Hlc, HlcClock};
use grumpydb::wal::record::wal_magic;
use grumpydb::{Database, GrumpyError, Value};

fn open(wal: &[u8], files: Vec<CollectionFiles>) -> Database {
    Database::open_with(
        7,
        HlcClock::new(),
        wal,
        files,
        AppliedSet::default(),
        None,
        None,
    )
    .unwrap()
}

fn setup() -> Database {
    open(&[], Vec::new())
}

/// The files of all collections.
fn files(db: &Database) -> Vec<CollectionFiles> {
    let stored = |c: &Collection| CollectionFiles {
        name: c.name.clone(),
        data: c.data.pool.pm.image(),
        index: c.btree.pm.image(),
    };
    db.collections.iter().map(stored).collect()
}

fn field<'a>(value: &'a Value, name: &str) -> Option<&'a Value> {
    let fields = value.as_object()?;
    let (place, found) = find_field(fields, name);
    if found {
        Some(&fields[place].1)
    } else {
        None
    }
}

#[test]
fn test_database_open_creates_dir() {
    let db = setup();
    assert!(db.list_collections().is_empty());
    assert_eq!(&db.wal.log[..8], &wal_magic());
}

#[test]
fn test_create_and_list_collections() {
    let mut db = setup();
    assert!(db.list_collections().is_empty());

    db.create_collection("users").unwrap();
    db.create_collection("tasks").unwrap();

    let colls = db.list_collections();
    assert_eq!(colls, vec!["tasks", "users"]);
}

#[test]
fn test_drop_collection() {
    let mut db = setup();
    db.create_collection("temp").unwrap();
    db.insert("temp", Uuid::new_v4(), Value::Null).unwrap();

    db.drop_collection("temp").unwrap();
    assert!(db.list_collections().is_empty());
    assert!(db.get("temp", &Uuid::new_v4()).is_err());
}

#[test]
fn test_crud_across_collections() {
    let mut db = setup();
    db.create_collection("users").unwrap();
    db.create_collection("tasks").unwrap();

    let user_key = Uuid::from_u128(1);
    let task_key = Uuid::from_u128(2);

    db.insert(
        "users",
        user_key,
        object(vec![(
            "name".into(),
            Value::String("Alice".into()),
        )]),
    )
    .unwrap();

    db.insert("tasks", task_key, Value::String("Buy milk".into()))
        .unwrap();

    // Verify isolation
    assert!(db.get("users", &user_key).unwrap().is_some());
    assert!(db.get("tasks", &task_key).unwrap().is_some());
    assert!(db.get("users", &task_key).unwrap().is_none());
    assert!(db.get("tasks", &user_key).unwrap().is_none());
}

#[test]
fn test_update_and_delete() {
    let mut db = setup();
    db.create_collection("items").unwrap();

    let key = Uuid::from_u128(42);
    db.insert("items", key, Value::Integer(1)).unwrap();

    db.update("items", &key, Value::Integer(2)).unwrap();
    assert_eq!(db.get("items", &key).unwrap(), Some(Value::Integer(2)));

    db.delete("items", &key).unwrap();
    assert_eq!(db.get("items", &key).unwrap(), None);
}

#[test]
fn test_database_consistency_defaults_persist_across_reopen() {
    let (wal, defaults) = {
        let mut db = setup();
        db.set_consistency_defaults(Some(2), Some(3)).unwrap();
        assert_eq!(db.consistency_defaults(), (Some(2), Some(3)));
        let db = db.close().unwrap();
        (db.wal.log.clone(), db.consistency_defaults())
    };

    let (read, write) = check_stored_defaults(defaults.0, defaults.1).unwrap();
    let db = Database::open_with(
        7,
        HlcClock::new(),
        &wal,
        Vec::new(),
        AppliedSet::default(),
        read,
        write,
    )
    .unwrap();
    assert_eq!(db.consistency_defaults(), (Some(2), Some(3)));
}

#[test]
fn test_database_consistency_defaults_reset_removes_file() {
    let mut db = setup();
    db.set_consistency_defaults(Some(2), Some(2)).unwrap();
    db.reset_consistency_defaults().unwrap();
    assert_eq!(db.consistency_defaults(), (None, None));
}

#[test]
fn test_database_consistency_defaults_reject_zero() {
    let mut db = setup();
    let err = db.set_consistency_defaults(Some(0), Some(1)).unwrap_err();
    assert!(matches!(err, GrumpyError::InvalidArgument(_)));
    let err = db.set_consistency_defaults(Some(1), Some(0)).unwrap_err();
    assert!(matches!(err, GrumpyError::InvalidArgument(_)));
}

#[test]
fn test_scan() {
    let mut db = setup();
    db.create_collection("nums").unwrap();

    for i in 0u128..10 {
        db.insert("nums", Uuid::from_u128(i), Value::Integer(i as i64))
            .unwrap();
    }

    let all = db.scan("nums", &KeyBound::Unbounded, &KeyBound::Unbounded).unwrap();
    assert_eq!(all.len(), 10);
}

#[test]
fn mod_test_document_count() {
    let mut db = setup();
    db.create_collection("c").unwrap();
    assert_eq!(db.document_count("c").unwrap(), 0);

    db.insert("c", Uuid::new_v4(), Value::Null).unwrap();
    assert_eq!(db.document_count("c").unwrap(), 1);
}

#[test]
fn test_secondary_index_via_database() {
    let mut db = setup();
    db.create_collection("users").unwrap();

    let u1 = Uuid::from_u128(1);
    let u2 = Uuid::from_u128(2);

    db.insert(
        "users",
        u1,
        object(vec![
            ("name".into(), Value::String("Alice".into())),
            ("age".into(), Value::Integer(30)),
        ]),
    )
    .unwrap();

    db.insert(
        "users",
        u2,
        object(vec![
            ("name".into(), Value::String("Bob".into())),
            ("age".into(), Value::Integer(25)),
        ]),
    )
    .unwrap();

    db.create_index("users", "by_age", "age").unwrap();

    let results = db.query("users", "by_age", &Value::Integer(30)).unwrap();
    assert_eq!(results.len(), 1);
    assert_eq!(results[0].0, u1);

    let range = db
        .query_range("users", "by_age", &Value::Integer(20), &Value::Integer(31))
        .unwrap();
    assert_eq!(range.len(), 2);
}

#[test]
fn mod_test_persistence_across_reopen() {
    let key = Uuid::from_u128(99);

    let (wal, stored) = {
        let mut db = setup();
        db.create_collection("data").unwrap();
        db.insert("data", key, Value::String("hello".into()))
            .unwrap();
        let db = db.close().unwrap();
        (db.wal.log.clone(), files(&db))
    };

    let mut db = open(&wal, stored);
    assert_eq!(db.list_collections(), vec!["data"]);
    let val = db.get("data", &key).unwrap();
    assert_eq!(val, Some(Value::String("hello".into())));
}

#[test]
fn test_compact_collection() {
    let mut db = setup();
    db.create_collection("c").unwrap();

    for i in 0u128..50 {
        db.insert("c", Uuid::from_u128(i), Value::Integer(i as i64))
            .unwrap();
    }
    for i in 0u128..25 {
        db.delete("c", &Uuid::from_u128(i)).unwrap();
    }

    let count = db.compact("c").unwrap();
    assert_eq!(count, 25);
    assert_eq!(db.document_count("c").unwrap(), 25);
}

#[test]
fn test_collection_not_found() {
    let mut db = setup();
    assert!(db.get("nope", &Uuid::new_v4()).is_err());
    assert!(db.insert("nope", Uuid::new_v4(), Value::Null).is_err());
}

#[test]
fn test_invalid_collection_name() {
    let mut db = setup();
    assert!(db.create_collection("Bad-Name").is_err());
    assert!(db.create_collection("").is_err());
}

#[test]
fn test_begin_read_exposes_snapshot_hlc() {
    let mut db = setup();
    db.create_collection("c").unwrap();
    db.insert("c", Uuid::new_v4(), Value::Integer(1)).unwrap();

    let before = db.current_hlc();
    let tx = db.begin_read();
    assert!(tx.snapshot_hlc() >= before);
}

#[test]
fn test_read_tx_get_and_scan() {
    let mut db = setup();
    db.create_collection("c").unwrap();

    let k1 = Uuid::from_u128(1);
    let k2 = Uuid::from_u128(2);
    db.insert("c", k1, Value::Integer(10)).unwrap();
    db.insert("c", k2, Value::Integer(20)).unwrap();

    let tx = db.begin_read();
    assert_eq!(tx.get(&mut db, "c", &k1).unwrap(), Some(Value::Integer(10)));
    let rows = tx.scan(&mut db, "c", &KeyBound::Unbounded, &KeyBound::Unbounded).unwrap();
    assert_eq!(rows.len(), 2);
}

#[test]
fn test_read_tx_snapshot_hides_future_update() {
    let mut db = setup();
    db.create_collection("c").unwrap();

    let key = Uuid::from_u128(7);
    db.insert("c", key, Value::Integer(1)).unwrap();
    let snapshot = db.current_hlc();
    db.versions.register_reader_snapshot(snapshot);

    db.update("c", &key, Value::Integer(2)).unwrap();

    assert_eq!(
        db.snapshot_get("c", &key, snapshot).unwrap(),
        Some(Value::Integer(1))
    );
    db.versions.unregister_reader_snapshot(snapshot);
    assert_eq!(db.get("c", &key).unwrap(), Some(Value::Integer(2)));
}

#[test]
fn test_snapshot_delete_preserves_pre_snapshot_visibility() {
    let mut db = setup();
    db.create_collection("c").unwrap();

    let key = Uuid::from_u128(8);
    db.insert("c", key, Value::Integer(10)).unwrap();

    // Without a history, a delete seeds a baseline version for older
    // snapshots.
    db.versions = VersionStore::new();
    let snapshot = db.current_hlc();
    db.versions.register_reader_snapshot(snapshot);
    db.delete("c", &key).unwrap();

    assert_eq!(
        db.snapshot_get("c", &key, snapshot).unwrap(),
        Some(Value::Integer(10))
    );
    db.versions.unregister_reader_snapshot(snapshot);
    assert_eq!(db.get("c", &key).unwrap(), None);
}

#[test]
fn test_delete_writes_hidden_tombstone_until_compact() {
    let mut db = setup();
    db.create_collection("c").unwrap();

    let key = Uuid::from_u128(1001);
    db.insert("c", key, Value::Integer(7)).unwrap();
    db.delete("c", &key).unwrap();

    // Tombstones are hidden from reads/scans.
    assert_eq!(db.get("c", &key).unwrap(), None);
    assert!(db.scan("c", &KeyBound::Unbounded, &KeyBound::Unbounded).unwrap().is_empty());

    // Tombstone still occupies the key until compaction.
    assert_eq!(db.document_count("c").unwrap(), 1);

    db.compact("c").unwrap();
    assert_eq!(db.document_count("c").unwrap(), 0);
}

#[test]
fn test_read_tx_drop_clears_reader_watermark() {
    let mut db = setup();
    db.create_collection("c").unwrap();
    db.insert("c", Uuid::new_v4(), Value::Integer(1)).unwrap();

    let snapshot = {
        let tx = db.begin_read();
        let s = tx.snapshot_hlc();
        assert_eq!(db.versions.reader_watermark(), Some(s));
        db.end_read(tx);
        s
    };

    assert_eq!(db.versions.reader_watermark(), None);
    assert!(snapshot > Hlc::zero());
}

#[test]
fn test_gc_versions_when_last_reader_drops() {
    let mut db = setup();
    db.create_collection("c").unwrap();

    let key = Uuid::from_u128(11);
    db.insert("c", key, Value::Integer(1)).unwrap();
    let snapshot = db.current_hlc();
    db.versions.register_reader_snapshot(snapshot);

    db.update("c", &key, Value::Integer(2)).unwrap();
    db.update("c", &key, Value::Integer(3)).unwrap();

    assert_eq!(
        db.snapshot_get("c", &key, snapshot).unwrap(),
        Some(Value::Integer(1))
    );
    assert!(db.versions.version_len("c", &key) >= 3);

    db.versions.unregister_reader_snapshot(snapshot);

    assert_eq!(db.versions.reader_watermark(), None);
    assert_eq!(db.versions.version_len("c", &key), 1);
    assert_eq!(db.get("c", &key).unwrap(), Some(Value::Integer(3)));
}

#[test]
fn test_resolve_ref_simple() {
    let mut db = setup();
    db.create_collection("users").unwrap();
    db.create_collection("orders").unwrap();

    let user_key = Uuid::from_u128(1);
    db.insert(
        "users",
        user_key,
        object(vec![(
            "name".into(),
            Value::String("Alice".into()),
        )]),
    )
    .unwrap();

    // Insert an order referencing the user
    let order_key = Uuid::from_u128(2);
    db.insert(
        "orders",
        order_key,
        object(vec![
            ("product".into(), Value::String("Widget".into())),
            ("owner".into(), Value::Ref("users".into(), user_key)),
        ]),
    )
    .unwrap();

    // Resolve the ref
    let resolved = db.resolve_ref("users", &user_key).unwrap();
    assert!(resolved.is_some());
    let val = resolved.unwrap();
    assert_eq!(field(&val, "name"), Some(&Value::String("Alice".into())));
}

#[test]
fn test_resolve_deep_nested_refs() {
    let mut db = setup();
    db.create_collection("a").unwrap();
    db.create_collection("b").unwrap();

    let key_a = Uuid::from_u128(10);
    let key_b = Uuid::from_u128(20);

    db.insert("a", key_a, Value::String("target_a".into()))
        .unwrap();
    db.insert(
        "b",
        key_b,
        object(vec![(
            "link".into(),
            Value::Ref("a".into(), key_a),
        )]),
    )
    .unwrap();

    // A document with a ref to b, which itself refs a
    let doc = object(vec![(
        "nested".into(),
        Value::Ref("b".into(), key_b),
    )]);

    let resolved = db.resolve_deep(&doc, 16).unwrap();
    // nested -> b's doc -> { link: "target_a" }
    let nested = field(&resolved, "nested").unwrap();
    let link = field(nested, "link").unwrap();
    assert_eq!(link, &Value::String("target_a".into()));
}

#[test]
fn test_resolve_deep_cycle_detection() {
    let mut db = setup();
    db.create_collection("items").unwrap();

    let key1 = Uuid::from_u128(100);
    let key2 = Uuid::from_u128(200);

    // key1 -> refs key2, key2 -> refs key1 (cycle)
    db.insert("items", key1, Value::Ref("items".into(), key2))
        .unwrap();
    db.insert("items", key2, Value::Ref("items".into(), key1))
        .unwrap();

    let doc = Value::Ref("items".into(), key1);
    let result = db.resolve_deep(&doc, 16);
    assert!(matches!(result, Err(GrumpyError::CyclicReference)));
}

#[test]
fn test_resolve_ref_missing_target() {
    let mut db = setup();
    db.create_collection("items").unwrap();

    let missing = Uuid::from_u128(999);
    let result = db.resolve_ref("items", &missing).unwrap();
    assert!(result.is_none());
}
