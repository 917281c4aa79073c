//! Sortable encodings of values.

use grumpydb::document::value::object;
use grumpydb::index::encoding::{
    encode_composite_key, encode_sortable_value, extract_field, MAX_INDEXED_LEN, TAG_NULL, TAG_REF,
};
use grumpydb::uid::Uuid;
use grumpydb::{GrumpyError, Value};

#[test]
fn test_encode_null() {
    let encoded = encode_sortable_value(&Value::Null).unwrap();
    assert_eq!(encoded, vec![TAG_NULL]);
}

#[test]
fn test_encode_bool_ordering() {
    let f = encode_sortable_value(&Value::Bool(false)).unwrap();
    let t = encode_sortable_value(&Value::Bool(true)).unwrap();
    assert!(f < t);
}

#[test]
fn test_encode_integer_ordering() {
    let neg = encode_sortable_value(&Value::Integer(-100)).unwrap();
    let zero = encode_sortable_value(&Value::Integer(0)).unwrap();
    let pos = encode_sortable_value(&Value::Integer(100)).unwrap();
    let max = encode_sortable_value(&Value::Integer(i64::MAX)).unwrap();
    let min = encode_sortable_value(&Value::Integer(i64::MIN)).unwrap();

    assert!(min < neg);
    assert!(neg < zero);
    assert!(zero < pos);
    assert!(pos < max);
}

#[test]
fn test_encode_float_ordering() {
    let neg = encode_sortable_value(&Value::Float(f64::to_bits(-1.5))).unwrap();
    let zero = encode_sortable_value(&Value::Float(f64::to_bits(0.0))).unwrap();
    let pos = encode_sortable_value(&Value::Float(f64::to_bits(1.5))).unwrap();

    assert!(neg < zero);
    assert!(zero < pos);
}

#[test]
fn test_encode_string_ordering() {
    let a = encode_sortable_value(&Value::String("alpha".into())).unwrap();
    let b = encode_sortable_value(&Value::String("beta".into())).unwrap();
    let z = encode_sortable_value(&Value::String("zulu".into())).unwrap();

    assert!(a < b);
    assert!(b < z);
}

#[test]
fn test_encode_cross_type_ordering() {
    let null = encode_sortable_value(&Value::Null).unwrap();
    let bool_v = encode_sortable_value(&Value::Bool(false)).unwrap();
    let int_v = encode_sortable_value(&Value::Integer(0)).unwrap();
    let float_v = encode_sortable_value(&Value::Float(f64::to_bits(0.0))).unwrap();
    let str_v = encode_sortable_value(&Value::String("a".into())).unwrap();

    assert!(null < bool_v);
    assert!(bool_v < int_v);
    assert!(int_v < float_v);
    assert!(float_v < str_v);
}

#[test]
fn test_encode_string_truncation() {
    let long = "x".repeat(200);
    let encoded = encode_sortable_value(&Value::String(long)).unwrap();
    // tag(1) + 128 bytes max
    assert_eq!(encoded.len(), 1 + MAX_INDEXED_LEN);
}

#[test]
fn test_encode_array_not_indexable() {
    let result = encode_sortable_value(&Value::Array(vec![]));
    assert!(matches!(result, Err(GrumpyError::NotIndexable)));
}

#[test]
fn test_encode_object_not_indexable() {
    let result = encode_sortable_value(&object(vec![]));
    assert!(matches!(result, Err(GrumpyError::NotIndexable)));
}

#[test]
fn test_encode_composite_key() {
    let uuid = Uuid::from_u128(42);
    let key = encode_composite_key(&Value::Integer(100), &uuid).unwrap();
    // tag(1) + i64(8) + uuid(16) = 25 bytes
    assert_eq!(key.len(), 25);
}

#[test]
fn test_composite_key_ordering_same_value() {
    let v = Value::Integer(42);
    let u1 = Uuid::from_u128(1);
    let u2 = Uuid::from_u128(2);
    let k1 = encode_composite_key(&v, &u1).unwrap();
    let k2 = encode_composite_key(&v, &u2).unwrap();
    // Same value, different UUIDs — should still have a deterministic order
    assert_ne!(k1, k2);
}

#[test]
fn test_extract_field_flat() {
    let val = object(vec![
        ("name".into(), Value::String("Alice".into())),
        ("age".into(), Value::Integer(30)),
    ]);
    assert_eq!(
        extract_field(&val, "name"),
        Some(&Value::String("Alice".into()))
    );
    assert_eq!(extract_field(&val, "age"), Some(&Value::Integer(30)));
    assert_eq!(extract_field(&val, "missing"), None);
}

#[test]
fn test_extract_field_nested() {
    let val = object(vec![(
        "address".into(),
        object(vec![(
            "city".into(),
            Value::String("Paris".into()),
        )]),
    )]);
    assert_eq!(
        extract_field(&val, "address.city"),
        Some(&Value::String("Paris".into()))
    );
    assert_eq!(extract_field(&val, "address.zip"), None);
}

#[test]
fn test_extract_field_not_object() {
    let val = Value::Integer(42);
    assert_eq!(extract_field(&val, "field"), None);
}

#[test]
fn test_encode_ref() {
    let uuid = Uuid::from_u128(42);
    let encoded = encode_sortable_value(&Value::Ref("users".into(), uuid)).unwrap();
    // tag(1) + "users"(5) + uuid(16) = 22
    assert_eq!(encoded.len(), 22);
    assert_eq!(encoded[0], TAG_REF);
}

#[test]
fn test_encode_ref_ordering() {
    // Ref should sort after Bytes
    let bytes_v = encode_sortable_value(&Value::Bytes(vec![0])).unwrap();
    let ref_v = encode_sortable_value(&Value::Ref("a".into(), Uuid::from_u128(1))).unwrap();
    assert!(bytes_v < ref_v);
}

#[test]
fn test_encode_ref_composite_key() {
    let doc_uuid = Uuid::from_u128(99);
    let ref_val = Value::Ref("orders".into(), Uuid::from_u128(1));
    let key = encode_composite_key(&ref_val, &doc_uuid).unwrap();
    // tag(1) + "orders"(6) + ref_uuid(16) + doc_uuid(16) = 39
    assert_eq!(key.len(), 39);
}
