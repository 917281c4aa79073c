//! Secondary indexes.

use grumpydb::document::value::object;
use grumpydb::index::{IndexDefinition, SecondaryIndex};
use grumpydb::page::manager::PageManager;
use grumpydb::uid::Uuid;
use grumpydb::Value;

fn make_user(name: &str, age: i64) -> Value {
    object(vec![
        ("name".into(), Value::String(name.into())),
        ("age".into(), Value::Integer(age)),
    ])
}

#[test]
fn test_secondary_index_create_and_open() {
    let def = IndexDefinition {
        name: "by_age".into(),
        field_path: "age".into(),
    };

    let image = {
        let idx = SecondaryIndex::create(def.clone()).unwrap();
        assert_eq!(idx.count(), 0);
        idx.btree.pm.image()
    };

    let idx = SecondaryIndex::open(PageManager::new(&image), def).unwrap();
    assert_eq!(idx.count(), 0);
}

#[test]
fn test_secondary_index_insert_and_lookup() {
    let def = IndexDefinition {
        name: "by_age".into(),
        field_path: "age".into(),
    };
    let mut idx = SecondaryIndex::create(def).unwrap();

    let u1 = Uuid::from_u128(1);
    let u2 = Uuid::from_u128(2);
    let u3 = Uuid::from_u128(3);

    idx.index_document(&u1, &make_user("Alice", 30)).unwrap();
    idx.index_document(&u2, &make_user("Bob", 25)).unwrap();
    idx.index_document(&u3, &make_user("Charlie", 30)).unwrap();

    let results = idx.lookup(&Value::Integer(30)).unwrap();
    assert_eq!(results.len(), 2);
    assert!(results.contains(&u1));
    assert!(results.contains(&u3));

    let results = idx.lookup(&Value::Integer(25)).unwrap();
    assert_eq!(results.len(), 1);
    assert!(results.contains(&u2));

    let results = idx.lookup(&Value::Integer(99)).unwrap();
    assert!(results.is_empty());
}

#[test]
fn test_secondary_index_range_query() {
    let def = IndexDefinition {
        name: "by_age".into(),
        field_path: "age".into(),
    };
    let mut idx = SecondaryIndex::create(def).unwrap();

    for i in 0u128..10 {
        let uuid = Uuid::from_u128(i);
        idx.index_document(&uuid, &make_user(&format!("user{i}"), i as i64 * 10))
            .unwrap();
    }

    // Range [20, 50) → ages 20, 30, 40
    let results = idx
        .range_query(&Value::Integer(20), &Value::Integer(50))
        .unwrap();
    assert_eq!(results.len(), 3);
}

#[test]
fn test_secondary_index_delete() {
    let def = IndexDefinition {
        name: "by_age".into(),
        field_path: "age".into(),
    };
    let mut idx = SecondaryIndex::create(def).unwrap();

    let uuid = Uuid::from_u128(1);
    let doc = make_user("Alice", 30);

    idx.index_document(&uuid, &doc).unwrap();
    assert_eq!(idx.lookup(&Value::Integer(30)).unwrap().len(), 1);

    idx.unindex_document(&uuid, &doc).unwrap();
    assert!(idx.lookup(&Value::Integer(30)).unwrap().is_empty());
}

#[test]
fn test_secondary_index_rebuild() {
    let def = IndexDefinition {
        name: "by_age".into(),
        field_path: "age".into(),
    };
    let mut idx = SecondaryIndex::create(def).unwrap();

    let docs: Vec<(Uuid, Value)> = (0..5)
        .map(|i| (Uuid::from_u128(i), make_user(&format!("u{i}"), i as i64)))
        .collect();

    idx.rebuild(&docs).unwrap();
    assert_eq!(idx.count(), 5);

    for i in 0..5 {
        let results = idx.lookup(&Value::Integer(i)).unwrap();
        assert_eq!(results.len(), 1);
    }
}

#[test]
fn test_secondary_index_missing_field() {
    let def = IndexDefinition {
        name: "by_email".into(),
        field_path: "email".into(),
    };
    let mut idx = SecondaryIndex::create(def).unwrap();

    let uuid = Uuid::from_u128(1);
    // Document without "email" field — should not be indexed
    let doc = make_user("Alice", 30);
    idx.index_document(&uuid, &doc).unwrap();
    assert_eq!(idx.count(), 0);
}

#[test]
fn test_secondary_index_string_field() {
    let def = IndexDefinition {
        name: "by_name".into(),
        field_path: "name".into(),
    };
    let mut idx = SecondaryIndex::create(def).unwrap();

    let u1 = Uuid::from_u128(1);
    let u2 = Uuid::from_u128(2);

    idx.index_document(&u1, &make_user("Alice", 30)).unwrap();
    idx.index_document(&u2, &make_user("Bob", 25)).unwrap();

    let results = idx.lookup(&Value::String("Alice".into())).unwrap();
    assert_eq!(results, vec![u1]);
}
