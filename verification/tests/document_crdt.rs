//! Merging CRDT payloads.

use std::collections::{BTreeMap, BTreeSet};

use grumpydb::document::crdt::{merge_payload, merge_values};
use grumpydb::document::value::{CrdtKind, Value};

fn encode_lwwset(adds: &[(&str, u64)], rems: &[(&str, u64)]) -> Vec<u8> {
    let to_map = |entries: &[(&str, u64)]| {
        entries.iter().map(|(k, ts)| ((*k).to_string(), *ts)).collect::<BTreeMap<_, _>>()
    };
    let fields = BTreeMap::from([("adds", to_map(adds)), ("rems", to_map(rems))]);
    serde_json::to_vec(&fields).expect("encode lwwset")
}

fn decode_lwwset(bytes: &[u8]) -> BTreeMap<String, BTreeMap<String, u64>> {
    serde_json::from_slice(bytes).expect("decode lwwset")
}

fn encode_orset(adds: &[(&str, &[&str])], rems: &[(&str, &[&str])]) -> Vec<u8> {
    let to_map = |entries: &[(&str, &[&str])]| {
        entries
            .iter()
            .map(|(k, tags)| {
                (
                    (*k).to_string(),
                    tags.iter()
                        .map(|t| (*t).to_string())
                        .collect::<BTreeSet<_>>(),
                )
            })
            .collect::<BTreeMap<_, _>>()
    };
    let fields = BTreeMap::from([("adds", to_map(adds)), ("rems", to_map(rems))]);
    serde_json::to_vec(&fields).expect("encode orset")
}

fn decode_orset(bytes: &[u8]) -> BTreeMap<String, BTreeMap<String, BTreeSet<String>>> {
    serde_json::from_slice(bytes).expect("decode orset")
}

fn encode_mvr(values: &[&str]) -> Vec<u8> {
    let values = values
        .iter()
        .map(|v| (*v).to_string())
        .collect::<BTreeSet<_>>();
    serde_json::to_vec(&BTreeMap::from([("values", values)])).expect("encode mvr")
}

fn decode_mvr(bytes: &[u8]) -> BTreeMap<String, BTreeSet<String>> {
    serde_json::from_slice(bytes).expect("decode mvr")
}

#[test]
fn test_merge_gcounter_uses_max_component() {
    let out = merge_payload(CrdtKind::GCounter, &5u64.to_le_bytes(), &9u64.to_le_bytes())
        .expect("merge gcounter");
    assert_eq!(out, 9u64.to_le_bytes().to_vec());
}

#[test]
fn test_merge_pncounter_uses_component_wise_max() {
    let mut l = Vec::new();
    l.extend_from_slice(&2u64.to_le_bytes());
    l.extend_from_slice(&7u64.to_le_bytes());

    let mut r = Vec::new();
    r.extend_from_slice(&9u64.to_le_bytes());
    r.extend_from_slice(&3u64.to_le_bytes());

    let out = merge_payload(CrdtKind::PNCounter, &l, &r).expect("merge pncounter");
    let mut expected = Vec::new();
    expected.extend_from_slice(&9u64.to_le_bytes());
    expected.extend_from_slice(&7u64.to_le_bytes());
    assert_eq!(out, expected);
}

#[test]
fn test_merge_values_rejects_kind_mismatch() {
    let left = Value::Crdt {
        kind: CrdtKind::GCounter,
        payload: 1u64.to_le_bytes().to_vec(),
    };
    let mut payload = Vec::new();
    payload.extend_from_slice(&1u64.to_le_bytes());
    payload.extend_from_slice(&0u64.to_le_bytes());
    let right = Value::Crdt {
        kind: CrdtKind::PNCounter,
        payload,
    };

    let err = merge_values(&left, &right).unwrap_err();
    assert!(err.contains("CRDT kind mismatch"));
}

#[test]
fn test_merge_lwwset_uses_max_timestamp_per_entry() {
    let left = encode_lwwset(&[("a", 10), ("b", 3)], &[("b", 6)]);
    let right = encode_lwwset(&[("a", 12), ("c", 1)], &[("b", 4), ("c", 9)]);

    let merged = merge_payload(CrdtKind::LwwSet, &left, &right).expect("merge lwwset");
    let decoded = decode_lwwset(&merged);

    assert_eq!(decoded["adds"].get("a"), Some(&12));
    assert_eq!(decoded["adds"].get("b"), Some(&3));
    assert_eq!(decoded["adds"].get("c"), Some(&1));
    assert_eq!(decoded["rems"].get("b"), Some(&6));
    assert_eq!(decoded["rems"].get("c"), Some(&9));
}

#[test]
fn test_merge_orset_unions_tag_sets() {
    let left = encode_orset(&[("x", &["n1:1", "n2:1"])], &[]);
    let right = encode_orset(&[("x", &["n3:1"]), ("y", &["n1:2"])], &[("x", &["n2:1"])]);

    let merged = merge_payload(CrdtKind::OrSet, &left, &right).expect("merge orset");
    let decoded = decode_orset(&merged);

    assert_eq!(decoded["adds"]["x"].len(), 3);
    assert!(decoded["adds"]["x"].contains("n1:1"));
    assert!(decoded["adds"]["x"].contains("n2:1"));
    assert!(decoded["adds"]["x"].contains("n3:1"));
    assert!(decoded["rems"]["x"].contains("n2:1"));
    assert!(decoded["adds"]["y"].contains("n1:2"));
}

#[test]
fn test_merge_mvr_unions_values() {
    let left = encode_mvr(&["dmFsdWUx", "dmFsdWUy"]);
    let right = encode_mvr(&["dmFsdWUy", "dmFsdWUz"]);

    let merged = merge_payload(CrdtKind::Mvr, &left, &right).expect("merge mvr");
    let decoded = decode_mvr(&merged);

    assert_eq!(decoded["values"].len(), 3);
    assert!(decoded["values"].contains("dmFsdWUx"));
    assert!(decoded["values"].contains("dmFsdWUy"));
    assert!(decoded["values"].contains("dmFsdWUz"));
}

#[test]
fn test_merge_lwwset_rejects_invalid_payload() {
    let err = merge_payload(CrdtKind::LwwSet, b"{not-json", b"{}").unwrap_err();
    assert!(err.contains("invalid LwwSet payload JSON"));
}
