//! Documents as bytes.

use grumpydb::document::value::{object, Value};
use grumpydb::document::Document;
use grumpydb::uid::Uuid;

#[test]
fn test_document_round_trip_simple() {
    let doc = Document::new(Uuid::new_v4(), Value::Integer(42));
    let encoded = doc.encode();
    let decoded = Document::decode(&encoded).unwrap();
    assert_eq!(doc.key, decoded.key);
    assert_eq!(doc.value, decoded.value);
}

#[test]
fn test_document_round_trip_complex() {
    let doc = Document::new(
        Uuid::new_v4(),
        object(vec![
            ("name".into(), Value::String("test".into())),
            (
                "tags".into(),
                Value::Array(vec![Value::Integer(1), Value::Null]),
            ),
        ]),
    );
    let encoded = doc.encode();
    let decoded = Document::decode(&encoded).unwrap();
    assert_eq!(doc.key, decoded.key);
    assert_eq!(doc.value, decoded.value);
}

#[test]
fn test_document_round_trip_null() {
    let doc = Document::new(Uuid::new_v4(), Value::Null);
    let encoded = doc.encode();
    let decoded = Document::decode(&encoded).unwrap();
    assert_eq!(doc.key, decoded.key);
    assert_eq!(doc.value, decoded.value);
}

#[test]
fn test_document_encoded_size() {
    let doc = Document::new(Uuid::new_v4(), Value::String("hello".into()));
    assert_eq!(doc.encode().len(), doc.encoded_size());
}

#[test]
fn test_document_decode_too_short() {
    let data = [0u8; 10]; // less than 16 bytes
    assert!(Document::decode(&data).is_err());
}

#[test]
fn test_document_preserves_uuid() {
    let key = Uuid::from_u128(0xDEADBEEF);
    let doc = Document::new(key, Value::Bool(true));
    let decoded = Document::decode(&doc.encode()).unwrap();
    assert_eq!(decoded.key, key);
}
