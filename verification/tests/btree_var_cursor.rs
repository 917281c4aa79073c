//! Cursors over variable-length keys.

use grumpydb::btree::var_tree::VarBTree;

fn setup(max_key_size: u16) -> VarBTree {
    VarBTree::create(max_key_size).unwrap()
}

#[test]
fn test_var_cursor_empty_tree() {
    let tree = setup(32);
    let results = tree.scan_all().unwrap();
    assert!(results.is_empty());
}

#[test]
fn test_var_cursor_full_scan() {
    let mut tree = setup(32);

    tree.insert(b"charlie".to_vec(), 3, 0).unwrap();
    tree.insert(b"alpha".to_vec(), 1, 0).unwrap();
    tree.insert(b"bravo".to_vec(), 2, 0).unwrap();

    let results = tree.scan_all().unwrap();
    assert_eq!(results.len(), 3);
    assert_eq!(results[0].key, b"alpha");
    assert_eq!(results[1].key, b"bravo");
    assert_eq!(results[2].key, b"charlie");
}

#[test]
fn test_var_cursor_range_scan() {
    let mut tree = setup(32);

    for i in 0u32..20 {
        tree.insert(format!("k_{i:04}").into_bytes(), i, 0).unwrap();
    }

    let results = tree.range(Some(&b"k_0005".to_vec()), Some(&b"k_0010".to_vec())).unwrap();
    assert_eq!(results.len(), 5);
    assert_eq!(results[0].key, b"k_0005");
    assert_eq!(results[4].key, b"k_0009");
}

#[test]
fn test_var_cursor_unbounded_start() {
    let mut tree = setup(32);

    for i in 0u32..10 {
        tree.insert(format!("x_{i:02}").into_bytes(), i, 0).unwrap();
    }

    let results = tree.range(None, Some(&b"x_05".to_vec())).unwrap();
    assert_eq!(results.len(), 5);
    assert_eq!(results[0].key, b"x_00");
}

#[test]
fn test_var_cursor_unbounded_end() {
    let mut tree = setup(32);

    for i in 0u32..10 {
        tree.insert(format!("y_{i:02}").into_bytes(), i, 0).unwrap();
    }

    let results = tree.range(Some(&b"y_07".to_vec()), None).unwrap();
    assert_eq!(results.len(), 3);
    assert_eq!(results[0].key, b"y_07");
    assert_eq!(results[2].key, b"y_09");
}

#[test]
fn test_var_cursor_across_leaf_splits() {
    let mut tree = setup(32);

    for i in 0u32..500 {
        tree.insert(format!("split_{i:06}").into_bytes(), i, 0)
            .unwrap();
    }

    let results = tree.scan_all().unwrap();
    assert_eq!(results.len(), 500);

    // Verify sorted order
    for i in 1..results.len() {
        assert!(
            results[i - 1].key < results[i].key,
            "not sorted at position {i}"
        );
    }
}

#[test]
fn test_var_cursor_empty_range() {
    let mut tree = setup(32);

    tree.insert(b"aaa".to_vec(), 1, 0).unwrap();
    tree.insert(b"zzz".to_vec(), 2, 0).unwrap();

    let results = tree.range(Some(&b"mmm".to_vec()), Some(&b"mmm".to_vec())).unwrap();
    assert!(results.is_empty());
}
