//! Nodes of the B+Tree.

use grumpydb::btree::key::NoConfig;
use grumpydb::btree::node::{
    internal_max_keys, leaf_max_entries, InternalEntry, InternalNode, LeafEntry, LeafNode,
};
use grumpydb::uid::Uuid;

fn uuid_from(val: u8) -> Uuid {
    let mut k = [0u8; 16];
    k[15] = val;
    Uuid::from_bytes(&k)
}

// ─── Uuid variant ──────────────────────────────────────────────────

#[test]
fn test_internal_node_uuid_round_trip() {
    let mut node = InternalNode::<Uuid>::new(5, NoConfig);
    node.right_child = 99;
    node.entries.push(InternalEntry {
        key: uuid_from(10),
        child_page_id: 2,
    });
    node.entries.push(InternalEntry {
        key: uuid_from(20),
        child_page_id: 3,
    });
    node.num_keys = 2;

    let buf = node.to_bytes();
    let restored: InternalNode<Uuid> = InternalNode::from_bytes(&buf);

    assert_eq!(restored.page_id, 5);
    assert_eq!(restored.num_keys, 2);
    assert_eq!(restored.right_child, 99);
    assert_eq!(restored.entries[0].key, uuid_from(10));
    assert_eq!(restored.entries[0].child_page_id, 2);
    assert_eq!(restored.entries[1].key, uuid_from(20));
    assert_eq!(restored.entries[1].child_page_id, 3);
}

#[test]
fn test_leaf_node_uuid_round_trip() {
    let mut node = LeafNode::<Uuid>::new(7, NoConfig);
    node.next_leaf = 8;
    node.prev_leaf = 6;
    node.entries.push(LeafEntry {
        key: uuid_from(5),
        page_id: 100,
        slot_id: 0,
    });
    node.entries.push(LeafEntry {
        key: uuid_from(15),
        page_id: 101,
        slot_id: 3,
    });
    node.num_entries = 2;

    let buf = node.to_bytes();
    let restored: LeafNode<Uuid> = LeafNode::from_bytes(&buf);

    assert_eq!(restored.page_id, 7);
    assert_eq!(restored.num_entries, 2);
    assert_eq!(restored.next_leaf, 8);
    assert_eq!(restored.prev_leaf, 6);
    assert_eq!(restored.entries[0].key, uuid_from(5));
    assert_eq!(restored.entries[0].page_id, 100);
    assert_eq!(restored.entries[1].slot_id, 3);
}

#[test]
fn test_internal_uuid_max_capacity() {
    let max_keys = internal_max_keys::<Uuid>(NoConfig);
    let mut node = InternalNode::<Uuid>::new(1, NoConfig);
    node.right_child = 999;
    for i in 0..max_keys {
        let mut k = [0u8; 16];
        k[14..16].copy_from_slice(&(i as u16).to_le_bytes());
        node.entries.push(InternalEntry {
            key: Uuid::from_bytes(&k),
            child_page_id: i as u32 + 1,
        });
    }
    node.num_keys = max_keys as u16;

    let buf = node.to_bytes();
    let restored: InternalNode<Uuid> = InternalNode::from_bytes(&buf);
    assert_eq!(restored.num_keys as usize, max_keys);
    assert_eq!(restored.entries.len(), max_keys);
}

#[test]
fn test_leaf_uuid_max_capacity() {
    let max_entries = leaf_max_entries::<Uuid>(NoConfig);
    let mut node = LeafNode::<Uuid>::new(1, NoConfig);
    for i in 0..max_entries {
        let mut k = [0u8; 16];
        k[14..16].copy_from_slice(&(i as u16).to_le_bytes());
        node.entries.push(LeafEntry {
            key: Uuid::from_bytes(&k),
            page_id: i as u32,
            slot_id: 0,
        });
    }
    node.num_entries = max_entries as u16;

    let buf = node.to_bytes();
    let restored: LeafNode<Uuid> = LeafNode::from_bytes(&buf);
    assert_eq!(restored.num_entries as usize, max_entries);
    assert_eq!(restored.entries.len(), max_entries);
}

#[test]
fn test_internal_uuid_find_child() {
    let mut node = InternalNode::<Uuid>::new(1, NoConfig);
    node.entries = vec![
        InternalEntry {
            key: uuid_from(10),
            child_page_id: 100,
        },
        InternalEntry {
            key: uuid_from(20),
            child_page_id: 101,
        },
        InternalEntry {
            key: uuid_from(30),
            child_page_id: 102,
        },
    ];
    node.num_keys = 3;
    node.right_child = 103;

    assert_eq!(node.find_child(&uuid_from(5)), 100); // < 10 → c0
    assert_eq!(node.find_child(&uuid_from(10)), 101); // >= 10, < 20 → c1
    assert_eq!(node.find_child(&uuid_from(15)), 101);
    assert_eq!(node.find_child(&uuid_from(20)), 102);
    assert_eq!(node.find_child(&uuid_from(25)), 102);
    assert_eq!(node.find_child(&uuid_from(30)), 103); // >= 30 → right_child
    assert_eq!(node.find_child(&uuid_from(99)), 103);
}

#[test]
fn test_leaf_uuid_search_and_insert_sorted() {
    let mut node = LeafNode::<Uuid>::new(1, NoConfig);
    node.insert_entry(LeafEntry {
        key: uuid_from(30),
        page_id: 1,
        slot_id: 0,
    });
    node.insert_entry(LeafEntry {
        key: uuid_from(10),
        page_id: 2,
        slot_id: 0,
    });
    node.insert_entry(LeafEntry {
        key: uuid_from(20),
        page_id: 3,
        slot_id: 0,
    });
    assert_eq!(node.entries[0].key, uuid_from(10));
    assert_eq!(node.entries[1].key, uuid_from(20));
    assert_eq!(node.entries[2].key, uuid_from(30));
    assert_eq!(node.search(&uuid_from(20)), Some(1));
    assert_eq!(node.search(&uuid_from(5)), None);
}

#[test]
fn test_leaf_uuid_remove_entry() {
    let mut node = LeafNode::<Uuid>::new(1, NoConfig);
    for v in [10, 20, 30] {
        node.insert_entry(LeafEntry {
            key: uuid_from(v),
            page_id: v as u32,
            slot_id: 0,
        });
    }
    let removed = node.remove_entry(&uuid_from(20));
    assert!(removed.is_some());
    assert_eq!(removed.unwrap().page_id, 20);
    assert_eq!(node.num_entries, 2);
    assert!(node.search(&uuid_from(20)).is_none());
    assert!(node.remove_entry(&uuid_from(99)).is_none());
}

#[test]
fn test_uuid_capacity_constants_sane() {
    let i = internal_max_keys::<Uuid>(NoConfig);
    let l = leaf_max_entries::<Uuid>(NoConfig);
    assert!(i > 100, "fan-out too small: {i}");
    assert!(l > 100, "leaf cap too small: {l}");
}

// ─── Vec<u8> variant ───────────────────────────────────────────────

#[test]
fn test_internal_vec_round_trip() {
    let mut node = InternalNode::<Vec<u8>>::new(5, 32);
    node.right_child = 99;
    node.entries.push(InternalEntry {
        key: b"alpha".to_vec(),
        child_page_id: 2,
    });
    node.entries.push(InternalEntry {
        key: b"beta".to_vec(),
        child_page_id: 3,
    });
    node.num_keys = 2;

    let buf = node.to_bytes();
    let restored: InternalNode<Vec<u8>> = InternalNode::from_bytes(&buf);

    assert_eq!(restored.page_id, 5);
    assert_eq!(restored.num_keys, 2);
    assert_eq!(restored.right_child, 99);
    assert_eq!(restored.config, 32);
    assert_eq!(restored.entries[0].key, b"alpha");
    assert_eq!(restored.entries[0].child_page_id, 2);
    assert_eq!(restored.entries[1].key, b"beta");
    assert_eq!(restored.entries[1].child_page_id, 3);
}

#[test]
fn test_leaf_vec_round_trip() {
    let mut node = LeafNode::<Vec<u8>>::new(7, 32);
    node.next_leaf = 8;
    node.prev_leaf = 6;
    node.entries.push(LeafEntry {
        key: b"apple".to_vec(),
        page_id: 100,
        slot_id: 0,
    });
    node.entries.push(LeafEntry {
        key: b"banana".to_vec(),
        page_id: 101,
        slot_id: 3,
    });
    node.num_entries = 2;

    let buf = node.to_bytes();
    let restored: LeafNode<Vec<u8>> = LeafNode::from_bytes(&buf);

    assert_eq!(restored.page_id, 7);
    assert_eq!(restored.num_entries, 2);
    assert_eq!(restored.next_leaf, 8);
    assert_eq!(restored.prev_leaf, 6);
    assert_eq!(restored.config, 32);
    assert_eq!(restored.entries[0].key, b"apple");
    assert_eq!(restored.entries[0].page_id, 100);
    assert_eq!(restored.entries[1].key, b"banana");
    assert_eq!(restored.entries[1].slot_id, 3);
}

#[test]
fn test_internal_vec_max_capacity() {
    let max_keys = internal_max_keys::<Vec<u8>>(32);
    assert!(max_keys > 10);
    let mut node = InternalNode::<Vec<u8>>::new(1, 32);
    node.right_child = 999;
    for i in 0..max_keys {
        node.entries.push(InternalEntry {
            key: format!("key_{i:06}").into_bytes(),
            child_page_id: i as u32 + 1,
        });
    }
    node.num_keys = max_keys as u16;

    let buf = node.to_bytes();
    let restored: InternalNode<Vec<u8>> = InternalNode::from_bytes(&buf);
    assert_eq!(restored.num_keys as usize, max_keys);
    assert_eq!(restored.entries.len(), max_keys);
}

#[test]
fn test_leaf_vec_max_capacity() {
    let max_entries = leaf_max_entries::<Vec<u8>>(32);
    assert!(max_entries > 10);
    let mut node = LeafNode::<Vec<u8>>::new(1, 32);
    for i in 0..max_entries {
        node.entries.push(LeafEntry {
            key: format!("key_{i:06}").into_bytes(),
            page_id: i as u32,
            slot_id: 0,
        });
    }
    node.num_entries = max_entries as u16;

    let buf = node.to_bytes();
    let restored: LeafNode<Vec<u8>> = LeafNode::from_bytes(&buf);
    assert_eq!(restored.num_entries as usize, max_entries);
}

#[test]
fn test_internal_vec_find_child() {
    let mut node = InternalNode::<Vec<u8>>::new(1, 32);
    node.entries = vec![
        InternalEntry {
            key: b"delta".to_vec(),
            child_page_id: 100,
        },
        InternalEntry {
            key: b"hotel".to_vec(),
            child_page_id: 101,
        },
        InternalEntry {
            key: b"mike".to_vec(),
            child_page_id: 102,
        },
    ];
    node.num_keys = 3;
    node.right_child = 103;

    assert_eq!(node.find_child(&b"alpha".to_vec()), 100);
    assert_eq!(node.find_child(&b"delta".to_vec()), 101);
    assert_eq!(node.find_child(&b"foxtrot".to_vec()), 101);
    assert_eq!(node.find_child(&b"hotel".to_vec()), 102);
    assert_eq!(node.find_child(&b"zulu".to_vec()), 103);
}

#[test]
fn test_vec_capacity_calculations_match_legacy() {
    // The previous fixed-Uuid path had INTERNAL_MAX_KEYS=407 and
    // LEAF_MAX_ENTRIES=370. The Vec<u8>(max=16) layout pays an extra
    // 2-byte length prefix and an extra 2-byte node meta, so capacity is
    // a touch lower but still in the same ballpark.
    let internal16 = internal_max_keys::<Vec<u8>>(16);
    let leaf16 = leaf_max_entries::<Vec<u8>>(16);
    assert!(internal16 > 300, "internal16 = {internal16}");
    assert!(leaf16 > 250, "leaf16 = {leaf16}");

    // With max=256 capacity drops but stays usable.
    let internal_big = internal_max_keys::<Vec<u8>>(256);
    let leaf_big = leaf_max_entries::<Vec<u8>>(256);
    assert!(internal_big > 10);
    assert!(leaf_big > 10);
}
