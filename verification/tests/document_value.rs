//! Values and their accessors.

use grumpydb::document::value::{find_field, object, CrdtKind, Value};
use grumpydb::uid::Uuid;

#[test]
fn test_value_null() {
    let v = Value::Null;
    assert!(v.is_null());
    assert!(v.as_bool().is_none());
}

#[test]
fn test_value_bool() {
    let v = Value::Bool(true);
    assert!(!v.is_null());
    assert_eq!(v.as_bool(), Some(true));
}

#[test]
fn test_value_integer() {
    let v = Value::Integer(42);
    assert_eq!(v.as_i64(), Some(42));
    assert!(v.as_str().is_none());
}

#[test]
fn test_value_float() {
    let v = Value::Float(f64::to_bits(std::f64::consts::PI));
    assert_eq!(v.as_float_bits().map(f64::from_bits), Some(std::f64::consts::PI));
}

#[test]
fn test_value_string() {
    let v = Value::String("hello".into());
    assert_eq!(v.as_str(), Some("hello"));
}

#[test]
fn test_value_bytes() {
    let v = Value::Bytes(vec![1, 2, 3]);
    assert_eq!(v.as_bytes(), Some(&[1, 2, 3][..]));
}

#[test]
fn test_value_array() {
    let v = Value::Array(vec![Value::Integer(1), Value::Integer(2)]);
    assert_eq!(v.as_array().unwrap().len(), 2);
}

#[test]
fn test_value_object() {
    let v = object(vec![(
        "key".into(),
        Value::String("value".into()),
    )]);
    let obj = v.as_object().unwrap();
    let (place, found) = find_field(obj, "key");
    assert!(found);
    assert_eq!(obj[place].1, Value::String("value".into()));
}

#[test]
fn test_value_clone_and_eq() {
    let v = object(vec![(
        "nested".into(),
        Value::Array(vec![Value::Null, Value::Bool(false)]),
    )]);
    let cloned = v.clone();
    assert_eq!(v, cloned);
}

#[test]
fn test_value_ref() {
    let id = Uuid::from_u128(42);
    let v = Value::Ref("users".into(), id);
    assert_eq!(v.as_ref(), Some(("users", &id)));
    assert!(v.as_str().is_none());
    assert!(!v.is_null());
}

#[test]
fn test_value_ref_clone_and_eq() {
    let v = Value::Ref("tasks".into(), Uuid::from_u128(99));
    let cloned = v.clone();
    assert_eq!(v, cloned);
}

#[test]
fn test_value_tombstone_helpers() {
    let v = Value::Tombstone {
        deleted_at_hlc: 0xdeadbeef,
        vector_clock: vec![0u8, 0u8],
    };
    assert!(v.is_tombstone());
    assert!(!Value::Null.is_tombstone());
    let (hlc, vc) = v.as_tombstone().unwrap();
    assert_eq!(hlc, 0xdeadbeef);
    assert_eq!(vc, &[0u8, 0u8]);
    assert!(Value::Null.as_tombstone().is_none());
    assert!(!v.is_null());
}

#[test]
fn test_value_tombstone_clone_and_eq() {
    let v = Value::Tombstone {
        deleted_at_hlc: 42,
        vector_clock: vec![1, 2, 3, 4],
    };
    let cloned = v.clone();
    assert_eq!(v, cloned);
}

#[test]
fn test_value_crdt_helpers() {
    let v = Value::Crdt {
        kind: CrdtKind::GCounter,
        payload: vec![1, 2, 3],
    };
    assert!(v.is_crdt());
    assert!(!Value::Null.is_crdt());
    let (kind, payload) = v.as_crdt().unwrap();
    assert_eq!(kind, CrdtKind::GCounter);
    assert_eq!(payload, &[1, 2, 3]);
    assert!(Value::Null.as_crdt().is_none());
}

#[test]
fn test_crdt_kind_tag_and_name_round_trip() {
    let all = [
        CrdtKind::GCounter,
        CrdtKind::PNCounter,
        CrdtKind::LwwSet,
        CrdtKind::OrSet,
        CrdtKind::Mvr,
    ];

    for kind in all {
        let tag = kind.to_tag();
        assert_eq!(CrdtKind::from_tag(tag), Some(kind));
        assert_eq!(CrdtKind::from_name(kind.as_str()), Some(kind));
    }

    assert!(CrdtKind::from_tag(42).is_none());
    assert!(CrdtKind::from_name("unknown").is_none());
}
