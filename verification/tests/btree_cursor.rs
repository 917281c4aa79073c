//! Cursors and range scans.

use grumpydb::btree::BTree;
use grumpydb::uid::Uuid;

// ─── Uuid path ────────────────────────────────────────────────────

fn uuid_setup() -> BTree<Uuid> {
    BTree::<Uuid>::create().unwrap()
}

fn make_uuid(val: u128) -> Uuid {
    Uuid::from_u128(val)
}

#[test]
fn test_uuid_cursor_empty_tree() {
    let btree = uuid_setup();
    let mut cursor = btree.cursor().unwrap();
    assert!(cursor.next_entry(&btree.pm).unwrap().is_none());
}

#[test]
fn test_uuid_cursor_full_scan() {
    let mut btree = uuid_setup();
    for i in 0..100u128 {
        btree.insert(make_uuid(i), i as u32, 0).unwrap();
    }
    let results = btree.scan_all().unwrap();
    assert_eq!(results.len(), 100);
    for i in 1..results.len() {
        assert!(results[i - 1].key < results[i].key);
    }
}

#[test]
fn test_uuid_cursor_range_scan() {
    let mut btree = uuid_setup();
    for i in 0..200u128 {
        btree.insert(make_uuid(i), i as u32, 0).unwrap();
    }
    let start = make_uuid(50);
    let end = make_uuid(100);
    let results = btree.range(Some(&start), Some(&end)).unwrap();
    assert_eq!(results.len(), 50);
    for entry in &results {
        assert!(entry.key >= start);
        assert!(entry.key < end);
    }
}

#[test]
fn test_uuid_cursor_unbounded_start() {
    let mut btree = uuid_setup();
    for i in 0..50u128 {
        btree.insert(make_uuid(i), i as u32, 0).unwrap();
    }
    let end = make_uuid(25);
    let results = btree.range(None, Some(&end)).unwrap();
    assert_eq!(results.len(), 25);
}

#[test]
fn test_uuid_cursor_unbounded_end() {
    let mut btree = uuid_setup();
    for i in 0..50u128 {
        btree.insert(make_uuid(i), i as u32, 0).unwrap();
    }
    let start = make_uuid(25);
    let results = btree.range(Some(&start), None).unwrap();
    assert_eq!(results.len(), 25);
}

#[test]
fn test_uuid_cursor_across_leaf_splits() {
    let mut btree = uuid_setup();
    let count = 1000u128;
    for i in 0..count {
        btree.insert(make_uuid(i), i as u32, 0).unwrap();
    }
    let results = btree.scan_all().unwrap();
    assert_eq!(results.len(), count as usize);
    for i in 1..results.len() {
        assert!(results[i - 1].key < results[i].key);
    }
}

#[test]
fn test_uuid_cursor_from_specific_key() {
    let mut btree = uuid_setup();
    for i in 0..100u128 {
        btree.insert(make_uuid(i * 10), i as u32, 0).unwrap();
    }
    let start = make_uuid(250);
    let mut cursor = btree.cursor_from(&start).unwrap();
    if let Some(first) = cursor.next_entry(&btree.pm).unwrap() {
        assert!(first.key >= start);
    }
}

#[test]
fn test_uuid_cursor_empty_range() {
    let mut btree = uuid_setup();
    for i in 0..50u128 {
        btree.insert(make_uuid(i), i as u32, 0).unwrap();
    }
    let start = make_uuid(100);
    let end = make_uuid(200);
    let results = btree.range(Some(&start), Some(&end)).unwrap();
    assert!(results.is_empty());
}

// ─── Vec<u8> path ─────────────────────────────────────────────────

fn vec_setup(max_key_size: u16) -> BTree<Vec<u8>> {
    BTree::<Vec<u8>>::create_with(max_key_size).unwrap()
}

#[test]
fn test_vec_cursor_empty_tree() {
    let tree = vec_setup(32);
    let results = tree.scan_all().unwrap();
    assert!(results.is_empty());
}

#[test]
fn test_vec_cursor_full_scan() {
    let mut tree = vec_setup(32);
    tree.insert(b"charlie".to_vec(), 3, 0).unwrap();
    tree.insert(b"alpha".to_vec(), 1, 0).unwrap();
    tree.insert(b"bravo".to_vec(), 2, 0).unwrap();
    let results = tree.scan_all().unwrap();
    assert_eq!(results.len(), 3);
    assert_eq!(results[0].key, b"alpha");
    assert_eq!(results[1].key, b"bravo");
    assert_eq!(results[2].key, b"charlie");
}

#[test]
fn test_vec_cursor_range_scan() {
    let mut tree = vec_setup(32);
    for i in 0u32..20 {
        tree.insert(format!("k_{i:04}").into_bytes(), i, 0).unwrap();
    }
    let results = tree
        .range(Some(&b"k_0005".to_vec()), Some(&b"k_0010".to_vec()))
        .unwrap();
    assert_eq!(results.len(), 5);
    assert_eq!(results[0].key, b"k_0005");
    assert_eq!(results[4].key, b"k_0009");
}

#[test]
fn test_vec_cursor_unbounded_start() {
    let mut tree = vec_setup(32);
    for i in 0u32..10 {
        tree.insert(format!("x_{i:02}").into_bytes(), i, 0).unwrap();
    }
    let results = tree.range(None, Some(&b"x_05".to_vec())).unwrap();
    assert_eq!(results.len(), 5);
    assert_eq!(results[0].key, b"x_00");
}

#[test]
fn test_vec_cursor_unbounded_end() {
    let mut tree = vec_setup(32);
    for i in 0u32..10 {
        tree.insert(format!("y_{i:02}").into_bytes(), i, 0).unwrap();
    }
    let results = tree.range(Some(&b"y_07".to_vec()), None).unwrap();
    assert_eq!(results.len(), 3);
    assert_eq!(results[0].key, b"y_07");
    assert_eq!(results[2].key, b"y_09");
}

#[test]
fn test_vec_cursor_across_leaf_splits() {
    let mut tree = vec_setup(32);
    for i in 0u32..500 {
        tree.insert(format!("split_{i:06}").into_bytes(), i, 0)
            .unwrap();
    }
    let results = tree.scan_all().unwrap();
    assert_eq!(results.len(), 500);
    for i in 1..results.len() {
        assert!(results[i - 1].key < results[i].key);
    }
}

#[test]
fn test_vec_cursor_empty_range() {
    let mut tree = vec_setup(32);
    tree.insert(b"aaa".to_vec(), 1, 0).unwrap();
    tree.insert(b"zzz".to_vec(), 2, 0).unwrap();
    let results = tree
        .range(Some(&b"mmm".to_vec()), Some(&b"mmm".to_vec()))
        .unwrap();
    assert!(results.is_empty());
}
