//! Nodes with variable-length keys.

use grumpydb::btree::var_node::{
    var_internal_max_keys, var_leaf_max_entries, VarInternalEntry, VarInternalNode, VarLeafEntry,
    VarLeafNode,
};

#[test]
fn test_var_internal_node_round_trip() {
    let mut node = VarInternalNode::new(5, 32);
    node.right_child = 99;
    node.entries.push(VarInternalEntry {
        key: b"alpha".to_vec(),
        child_page_id: 2,
    });
    node.entries.push(VarInternalEntry {
        key: b"beta".to_vec(),
        child_page_id: 3,
    });
    node.num_keys = 2;

    let buf = node.to_bytes();
    let restored = VarInternalNode::from_bytes(&buf);

    assert_eq!(restored.page_id, 5);
    assert_eq!(restored.num_keys, 2);
    assert_eq!(restored.right_child, 99);
    assert_eq!(restored.config, 32);
    assert_eq!(restored.entries[0].key, b"alpha");
    assert_eq!(restored.entries[0].child_page_id, 2);
    assert_eq!(restored.entries[1].key, b"beta");
    assert_eq!(restored.entries[1].child_page_id, 3);
}

#[test]
fn test_var_leaf_node_round_trip() {
    let mut node = VarLeafNode::new(7, 32);
    node.next_leaf = 8;
    node.prev_leaf = 6;
    node.entries.push(VarLeafEntry {
        key: b"apple".to_vec(),
        page_id: 100,
        slot_id: 0,
    });
    node.entries.push(VarLeafEntry {
        key: b"banana".to_vec(),
        page_id: 101,
        slot_id: 3,
    });
    node.num_entries = 2;

    let buf = node.to_bytes();
    let restored = VarLeafNode::from_bytes(&buf);

    assert_eq!(restored.page_id, 7);
    assert_eq!(restored.num_entries, 2);
    assert_eq!(restored.next_leaf, 8);
    assert_eq!(restored.prev_leaf, 6);
    assert_eq!(restored.config, 32);
    assert_eq!(restored.entries[0].key, b"apple");
    assert_eq!(restored.entries[0].page_id, 100);
    assert_eq!(restored.entries[1].key, b"banana");
    assert_eq!(restored.entries[1].slot_id, 3);
}

#[test]
fn test_var_internal_max_capacity() {
    let max_keys = var_internal_max_keys(32);
    assert!(max_keys > 10, "should fit many keys, got {max_keys}");

    let mut node = VarInternalNode::new(1, 32);
    node.right_child = 999;
    for i in 0..max_keys {
        node.entries.push(VarInternalEntry {
            key: format!("key_{i:06}").into_bytes(),
            child_page_id: i as u32 + 1,
        });
    }
    node.num_keys = max_keys as u16;

    let buf = node.to_bytes();
    let restored = VarInternalNode::from_bytes(&buf);
    assert_eq!(restored.num_keys as usize, max_keys);
    assert_eq!(restored.entries.len(), max_keys);
}

#[test]
fn test_var_leaf_max_capacity() {
    let max_entries = var_leaf_max_entries(32);
    assert!(
        max_entries > 10,
        "should fit many entries, got {max_entries}"
    );

    let mut node = VarLeafNode::new(1, 32);
    for i in 0..max_entries {
        node.entries.push(VarLeafEntry {
            key: format!("key_{i:06}").into_bytes(),
            page_id: i as u32,
            slot_id: 0,
        });
    }
    node.num_entries = max_entries as u16;

    let buf = node.to_bytes();
    let restored = VarLeafNode::from_bytes(&buf);
    assert_eq!(restored.num_entries as usize, max_entries);
}

#[test]
fn test_var_internal_find_child() {
    let mut node = VarInternalNode::new(1, 32);
    node.entries = vec![
        VarInternalEntry {
            key: b"delta".to_vec(),
            child_page_id: 100,
        },
        VarInternalEntry {
            key: b"hotel".to_vec(),
            child_page_id: 101,
        },
        VarInternalEntry {
            key: b"mike".to_vec(),
            child_page_id: 102,
        },
    ];
    node.num_keys = 3;
    node.right_child = 103;

    assert_eq!(node.find_child(&b"alpha".to_vec()), 100); // < "delta"
    assert_eq!(node.find_child(&b"delta".to_vec()), 101); // >= "delta", < "hotel"
    assert_eq!(node.find_child(&b"foxtrot".to_vec()), 101);
    assert_eq!(node.find_child(&b"hotel".to_vec()), 102);
    assert_eq!(node.find_child(&b"zulu".to_vec()), 103); // >= "mike" → right
}

#[test]
fn test_var_leaf_search_and_insert() {
    let mut node = VarLeafNode::new(1, 32);
    node.insert_entry(VarLeafEntry {
        key: b"cherry".to_vec(),
        page_id: 1,
        slot_id: 0,
    });
    node.insert_entry(VarLeafEntry {
        key: b"apple".to_vec(),
        page_id: 2,
        slot_id: 1,
    });
    node.insert_entry(VarLeafEntry {
        key: b"banana".to_vec(),
        page_id: 3,
        slot_id: 2,
    });

    assert_eq!(node.entries[0].key, b"apple");
    assert_eq!(node.entries[1].key, b"banana");
    assert_eq!(node.entries[2].key, b"cherry");

    assert_eq!(node.search(&b"banana".to_vec()), Some(1));
    assert_eq!(node.search(&b"date".to_vec()), None);
}

#[test]
fn test_var_leaf_remove_entry() {
    let mut node = VarLeafNode::new(1, 32);
    node.insert_entry(VarLeafEntry {
        key: b"a".to_vec(),
        page_id: 1,
        slot_id: 0,
    });
    node.insert_entry(VarLeafEntry {
        key: b"b".to_vec(),
        page_id: 2,
        slot_id: 0,
    });
    node.insert_entry(VarLeafEntry {
        key: b"c".to_vec(),
        page_id: 3,
        slot_id: 0,
    });

    let removed = node.remove_entry(&b"b".to_vec());
    assert!(removed.is_some());
    assert_eq!(node.num_entries, 2);
    assert_eq!(node.search(&b"b".to_vec()), None);
    assert_eq!(node.search(&b"a".to_vec()), Some(0));
    assert_eq!(node.search(&b"c".to_vec()), Some(1));
}

#[test]
fn test_var_capacity_calculations() {
    // With max_key_size=16 (UUID-like), should have similar capacity to fixed-key BTree
    let internal = var_internal_max_keys(16);
    let leaf = var_leaf_max_entries(16);
    // Original: INTERNAL_MAX_KEYS=407, LEAF_MAX_ENTRIES=370
    // With 2-byte length prefix overhead, we expect slightly less
    assert!(internal > 300, "internal capacity {internal} too low");
    assert!(leaf > 250, "leaf capacity {leaf} too low");

    // With max_key_size=256, capacity drops significantly but is still usable
    let internal_256 = var_internal_max_keys(256);
    let leaf_256 = var_leaf_max_entries(256);
    assert!(
        internal_256 > 10,
        "internal_256 capacity {internal_256} too low"
    );
    assert!(leaf_256 > 10, "leaf_256 capacity {leaf_256} too low");
}
