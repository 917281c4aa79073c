//! The binary document codec.

use grumpydb::document::codec::{
    decode, encode_to_vec, encoded_size, MAX_NESTING_DEPTH, MAX_TOMBSTONE_VCLOCK_LEN, TAG_CRDT,
    TAG_STRING, TAG_TOMBSTONE,
};
use grumpydb::document::value::{object, CrdtKind, Value};
use grumpydb::uid::Uuid;

fn round_trip(value: &Value) {
    let encoded = encode_to_vec(value);
    assert_eq!(
        encoded.len(),
        encoded_size(value),
        "encoded_size mismatch for {value:?}"
    );
    let decoded = decode(&encoded).unwrap();
    assert_eq!(*value, decoded);
}

#[test]
fn test_null_round_trip() {
    round_trip(&Value::Null);
}

#[test]
fn test_bool_round_trip() {
    round_trip(&Value::Bool(true));
    round_trip(&Value::Bool(false));
}

#[test]
fn test_integer_round_trip() {
    round_trip(&Value::Integer(0));
    round_trip(&Value::Integer(42));
    round_trip(&Value::Integer(-1));
    round_trip(&Value::Integer(i64::MAX));
    round_trip(&Value::Integer(i64::MIN));
}

#[test]
fn test_float_round_trip() {
    round_trip(&Value::Float(f64::to_bits(0.0)));
    round_trip(&Value::Float(f64::to_bits(std::f64::consts::PI)));
    round_trip(&Value::Float(f64::to_bits(-1.0e100)));
    round_trip(&Value::Float(f64::to_bits(f64::INFINITY)));
    round_trip(&Value::Float(f64::to_bits(f64::NEG_INFINITY)));
}

#[test]
fn test_string_round_trip() {
    round_trip(&Value::String(String::new()));
    round_trip(&Value::String("hello".into()));
    round_trip(&Value::String("émoji: 🦀".into()));
    round_trip(&Value::String("a".repeat(10_000)));
}

#[test]
fn test_bytes_round_trip() {
    round_trip(&Value::Bytes(vec![]));
    round_trip(&Value::Bytes(vec![0, 1, 2, 255]));
    round_trip(&Value::Bytes(vec![0xAB; 5000]));
}

#[test]
fn test_array_round_trip() {
    round_trip(&Value::Array(vec![]));
    round_trip(&Value::Array(vec![
        Value::Integer(1),
        Value::String("two".into()),
        Value::Null,
    ]));
}

#[test]
fn test_object_round_trip() {
    round_trip(&object(vec![]));
    round_trip(&object(vec![
        ("name".into(), Value::String("grumpy".into())),
        ("version".into(), Value::Integer(1)),
    ]));
}

#[test]
fn test_nested_complex_document() {
    let value = object(vec![
        ("name".into(), Value::String("GrumpyDB".into())),
        ("version".into(), Value::Integer(1)),
        ("active".into(), Value::Bool(true)),
        ("score".into(), Value::Float(f64::to_bits(99.5))),
        ("data".into(), Value::Bytes(vec![0xDE, 0xAD])),
        (
            "tags".into(),
            Value::Array(vec![
                Value::String("db".into()),
                Value::String("rust".into()),
                Value::Null,
            ]),
        ),
        (
            "metadata".into(),
            object(vec![
                ("created".into(), Value::Integer(1234567890)),
                (
                    "nested".into(),
                    object(vec![("deep".into(), Value::Bool(true))]),
                ),
            ]),
        ),
    ]);
    round_trip(&value);
}

#[test]
fn test_encoded_size_matches() {
    let values = vec![
        Value::Null,
        Value::Bool(true),
        Value::Integer(42),
        Value::Float(f64::to_bits(std::f64::consts::PI)),
        Value::String("test".into()),
        Value::Bytes(vec![1, 2, 3]),
        Value::Array(vec![Value::Integer(1), Value::Integer(2)]),
        object(vec![("k".into(), Value::Null)]),
    ];
    for v in &values {
        let encoded = encode_to_vec(v);
        assert_eq!(encoded.len(), encoded_size(v), "mismatch for {v:?}");
    }
}

#[test]
fn test_decode_unknown_tag() {
    let data = [0xFF];
    let result = decode(&data);
    assert!(result.is_err());
    let msg = result.unwrap_err().message();
    assert!(msg.contains("unknown type tag"));
}

#[test]
fn test_decode_truncated_string() {
    // Encode a string, then truncate
    let encoded = encode_to_vec(&Value::String("hello".into()));
    let truncated = &encoded[..3]; // tag + partial len
    assert!(decode(truncated).is_err());
}

#[test]
fn test_decode_truncated_integer() {
    let encoded = encode_to_vec(&Value::Integer(42));
    let truncated = &encoded[..5]; // tag + 4 bytes instead of 8
    assert!(decode(truncated).is_err());
}

#[test]
fn test_decode_empty_data() {
    assert!(decode(&[]).is_err());
}

#[test]
fn test_decode_invalid_utf8() {
    // Manually craft a String tag with invalid UTF-8
    let mut data = vec![TAG_STRING];
    data.extend_from_slice(&3u32.to_le_bytes());
    data.extend_from_slice(&[0xFF, 0xFE, 0xFD]); // invalid UTF-8
    let result = decode(&data);
    assert!(result.is_err());
    assert!(result.unwrap_err().message().contains("UTF-8"));
}

#[test]
fn test_nesting_depth_limit() {
    // Build a deeply nested array: [[[[...]]]]
    let mut value = Value::Null;
    for _ in 0..MAX_NESTING_DEPTH + 5 {
        value = Value::Array(vec![value]);
    }
    let encoded = encode_to_vec(&value);
    let result = decode(&encoded);
    assert!(result.is_err());
    assert!(result.unwrap_err().message().contains("nesting depth"));
}

#[test]
fn test_nesting_at_max_depth_ok() {
    // Exactly at MAX_NESTING_DEPTH should work
    let mut value = Value::Null;
    for _ in 0..MAX_NESTING_DEPTH {
        value = Value::Array(vec![value]);
    }
    let encoded = encode_to_vec(&value);
    assert!(decode(&encoded).is_ok());
}

#[test]
fn test_empty_containers() {
    round_trip(&Value::String(String::new()));
    round_trip(&Value::Bytes(vec![]));
    round_trip(&Value::Array(vec![]));
    round_trip(&object(vec![]));
}

#[test]
fn test_float_nan() {
    // NaN encodes/decodes but NaN != NaN, so we check manually
    let encoded = encode_to_vec(&Value::Float(f64::to_bits(f64::NAN)));
    let decoded = decode(&encoded).unwrap();
    match decoded {
        Value::Float(f) => assert!(f64::from_bits(f).is_nan()),
        _ => panic!("expected Float"),
    }
}

#[test]
fn test_ref_round_trip() {
    let uuid = Uuid::from_u128(12345);
    round_trip(&Value::Ref("users".into(), uuid));
}

#[test]
fn test_ref_in_object_round_trip() {
    let uuid = Uuid::from_u128(42);
    let value = object(vec![
        ("name".into(), Value::String("Order #1".into())),
        ("owner".into(), Value::Ref("users".into(), uuid)),
    ]);
    round_trip(&value);
}

#[test]
fn test_ref_in_array_round_trip() {
    let value = Value::Array(vec![
        Value::Ref("a".into(), Uuid::from_u128(1)),
        Value::Ref("b".into(), Uuid::from_u128(2)),
    ]);
    round_trip(&value);
}

#[test]
fn test_ref_encoded_size() {
    let v = Value::Ref("users".into(), Uuid::from_u128(1));
    let encoded = encode_to_vec(&v);
    assert_eq!(encoded.len(), encoded_size(&v));
    // tag(1) + name_len(4) + "users"(5) + uuid(16) = 26
    assert_eq!(encoded.len(), 26);
}

#[test]
fn test_tombstone_codec_round_trip() {
    // Empty vclock.
    let v = Value::Tombstone {
        deleted_at_hlc: 0,
        vector_clock: vec![],
    };
    round_trip(&v);
    // Realistic vclock: u16 num_entries=1 + (u128 + u64) = 26 bytes.
    let mut vc_bytes = Vec::new();
    vc_bytes.extend_from_slice(&1u16.to_le_bytes());
    vc_bytes.extend_from_slice(&12345u128.to_le_bytes());
    vc_bytes.extend_from_slice(&7u64.to_le_bytes());
    let v2 = Value::Tombstone {
        deleted_at_hlc: 0xdeadbeef_cafebabe,
        vector_clock: vc_bytes.clone(),
    };
    round_trip(&v2);

    // Sanity: tag(1) + hlc(8) + vc_len(4) + vc(26) = 39 bytes.
    let encoded = encode_to_vec(&v2);
    assert_eq!(encoded.len(), 1 + 8 + 4 + vc_bytes.len());
    assert_eq!(encoded[0], TAG_TOMBSTONE);
}

#[test]
fn test_tombstone_decode_truncated_hlc() {
    // Tag + only 4 bytes of the 8-byte HLC.
    let mut data = vec![TAG_TOMBSTONE];
    data.extend_from_slice(&[0u8; 4]);
    let err = decode(&data).unwrap_err();
    assert!(err.message().contains("tombstone HLC"));
}

#[test]
fn test_tombstone_decode_oversize_vclock_rejected() {
    let mut data = vec![TAG_TOMBSTONE];
    data.extend_from_slice(&0u64.to_le_bytes());
    // Claim a vclock far above the cap.
    data.extend_from_slice(&(MAX_TOMBSTONE_VCLOCK_LEN + 1).to_le_bytes());
    let err = decode(&data).unwrap_err();
    assert!(err.message().contains("vector clock length"));
}

#[test]
fn test_crdt_codec_round_trip() {
    let v = Value::Crdt {
        kind: CrdtKind::PNCounter,
        payload: vec![0xaa, 0xbb, 0xcc],
    };
    round_trip(&v);
    let enc = encode_to_vec(&v);
    assert_eq!(enc[0], TAG_CRDT);
}

#[test]
fn test_crdt_codec_rejects_unknown_kind_tag() {
    let bytes = [TAG_CRDT, 0xff, 0, 0, 0, 0];
    let err = decode(&bytes).unwrap_err();
    assert!(err.message().contains("unknown CRDT kind tag"));
}
