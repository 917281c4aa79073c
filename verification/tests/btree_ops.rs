//! Searching, inserting and deleting in B+Trees.

use grumpydb::btree::key::NoConfig;
use grumpydb::btree::node::{internal_max_keys, leaf_max_entries};
use grumpydb::btree::BTree;
use grumpydb::page::manager::PageManager;
use grumpydb::uid::Uuid;
use grumpydb::GrumpyError;

// ─── Uuid path ────────────────────────────────────────────────────

fn uuid_setup() -> BTree<Uuid> {
    BTree::<Uuid>::create().unwrap()
}

fn make_uuid(val: u128) -> Uuid {
    Uuid::from_u128(val)
}

#[test]
fn test_uuid_search_empty_tree() {
    let btree = uuid_setup();
    assert!(btree.search(&make_uuid(1)).unwrap().is_none());
}

#[test]
fn test_uuid_insert_and_search_single() {
    let mut btree = uuid_setup();
    let key = make_uuid(42);
    btree.insert(key, 10, 5).unwrap();
    assert_eq!(btree.search(&key).unwrap(), Some((10, 5)));
    assert_eq!(btree.len(), 1);
}

#[test]
fn test_uuid_insert_duplicate_key() {
    let mut btree = uuid_setup();
    let key = make_uuid(42);
    btree.insert(key, 10, 5).unwrap();
    let result = btree.insert(key, 20, 0);
    assert!(matches!(result, Err(GrumpyError::DuplicateKey(_))));
}

#[test]
fn test_uuid_insert_multiple_and_search() {
    let mut btree = uuid_setup();
    for i in 0..100u128 {
        btree.insert(make_uuid(i), i as u32, 0).unwrap();
    }
    assert_eq!(btree.len(), 100);
    for i in 0..100u128 {
        assert_eq!(
            btree.search(&make_uuid(i)).unwrap(),
            Some((i as u32, 0)),
            "key {i} not found"
        );
    }
    assert!(btree.search(&make_uuid(999)).unwrap().is_none());
}

#[test]
fn test_uuid_insert_causes_leaf_split() {
    let mut btree = uuid_setup();
    let count = (leaf_max_entries::<Uuid>(NoConfig) + 10) as u128;
    for i in 0..count {
        btree.insert(make_uuid(i), i as u32, 0).unwrap();
    }
    assert_eq!(btree.len(), count as u64);
    assert!(btree.height() >= 2);
    for i in 0..count {
        assert_eq!(
            btree.search(&make_uuid(i)).unwrap(),
            Some((i as u32, 0)),
            "key {i} missing after split"
        );
    }
}

#[test]
fn test_uuid_insert_causes_root_split() {
    let mut btree = uuid_setup();
    let lf = leaf_max_entries::<Uuid>(NoConfig);
    let inn = internal_max_keys::<Uuid>(NoConfig);
    let count = ((lf * (inn + 2)) as u128).min(5000);
    for i in 0..count {
        btree
            .insert(make_uuid(i), i as u32, (i % 100) as u16)
            .unwrap();
    }
    assert!(btree.height() >= 2);
    assert_eq!(btree.len(), count as u64);
    for i in (0..count).step_by(50) {
        assert!(btree.search(&make_uuid(i)).unwrap().is_some());
    }
}

#[test]
fn test_uuid_insert_random_order() {
    let mut btree = uuid_setup();
    let count = 1000u128;
    let keys: Vec<u128> = (0..count).map(|i| i.wrapping_mul(7919) % 100_000).collect();
    for (i, &k) in keys.iter().enumerate() {
        if btree.search(&make_uuid(k)).unwrap().is_some() {
            continue;
        }
        btree.insert(make_uuid(k), i as u32, 0).unwrap();
    }
    for &k in &keys {
        assert!(btree.search(&make_uuid(k)).unwrap().is_some());
    }
}

#[test]
fn test_uuid_delete_single() {
    let mut btree = uuid_setup();
    let key = make_uuid(42);
    btree.insert(key, 10, 5).unwrap();
    btree.delete(&key).unwrap();
    assert!(btree.search(&key).unwrap().is_none());
    assert_eq!(btree.len(), 0);
}

#[test]
fn test_uuid_delete_nonexistent() {
    let mut btree = uuid_setup();
    let result = btree.delete(&make_uuid(999));
    assert!(matches!(result, Err(GrumpyError::KeyNotFound(_))));
}

#[test]
fn test_uuid_delete_half() {
    let mut btree = uuid_setup();
    let count = 500u128;
    for i in 0..count {
        btree.insert(make_uuid(i), i as u32, 0).unwrap();
    }
    for i in (0..count).step_by(2) {
        btree.delete(&make_uuid(i)).unwrap();
    }
    assert_eq!(btree.len(), count as u64 / 2);
    for i in (1..count).step_by(2) {
        assert!(btree.search(&make_uuid(i)).unwrap().is_some());
    }
    for i in (0..count).step_by(2) {
        assert!(btree.search(&make_uuid(i)).unwrap().is_none());
    }
}

#[test]
fn test_uuid_delete_all() {
    let mut btree = uuid_setup();
    let count = 200u128;
    for i in 0..count {
        btree.insert(make_uuid(i), i as u32, 0).unwrap();
    }
    for i in 0..count {
        btree.delete(&make_uuid(i)).unwrap();
    }
    assert_eq!(btree.len(), 0);
    assert!(btree.is_empty());
}

#[test]
fn test_uuid_insert_delete_reinsert() {
    let mut btree = uuid_setup();
    let key = make_uuid(42);
    btree.insert(key, 10, 0).unwrap();
    btree.delete(&key).unwrap();
    btree.insert(key, 20, 1).unwrap();
    assert_eq!(btree.search(&key).unwrap(), Some((20, 1)));
}

#[test]
fn test_uuid_persist_and_reopen() {
    let image = {
        let mut btree = BTree::<Uuid>::create().unwrap();
        for i in 0..100u128 {
            btree.insert(make_uuid(i), i as u32, 0).unwrap();
        }
        btree.pm.image()
    };
    let btree = BTree::<Uuid>::open(PageManager::new(&image)).unwrap();
    assert_eq!(btree.len(), 100);
    for i in 0..100u128 {
        assert!(btree.search(&make_uuid(i)).unwrap().is_some());
    }
}

#[test]
fn test_uuid_large_insert_and_delete_stress() {
    let mut btree = uuid_setup();
    let count = 2000u128;
    for i in 0..count {
        btree.insert(make_uuid(i), i as u32, 0).unwrap();
    }
    assert_eq!(btree.len(), count as u64);
    for i in 0..count / 2 {
        btree.delete(&make_uuid(i)).unwrap();
    }
    assert_eq!(btree.len(), count as u64 / 2);
    for i in count / 2..count {
        assert!(btree.search(&make_uuid(i)).unwrap().is_some());
    }
}

// ─── Vec<u8> path ─────────────────────────────────────────────────

fn vec_setup(max_key_size: u16) -> BTree<Vec<u8>> {
    BTree::<Vec<u8>>::create_with(max_key_size).unwrap()
}

#[test]
fn test_vec_insert_and_search() {
    let mut tree = vec_setup(32);
    tree.insert(b"hello".to_vec(), 10, 0).unwrap();
    tree.insert(b"world".to_vec(), 20, 1).unwrap();
    tree.insert(b"foo".to_vec(), 30, 2).unwrap();
    assert_eq!(tree.search(&b"hello".to_vec()).unwrap(), Some((10, 0)));
    assert_eq!(tree.search(&b"world".to_vec()).unwrap(), Some((20, 1)));
    assert_eq!(tree.search(&b"foo".to_vec()).unwrap(), Some((30, 2)));
    assert!(tree.search(&b"bar".to_vec()).unwrap().is_none());
    assert_eq!(tree.len(), 3);
}

#[test]
fn test_vec_insert_many_causes_splits() {
    let mut tree = vec_setup(32);
    for i in 0u32..1000 {
        tree.insert(format!("key_{i:06}").into_bytes(), i, 0)
            .unwrap();
    }
    assert_eq!(tree.len(), 1000);
    assert!(tree.height() > 1);
    for i in 0u32..1000 {
        assert_eq!(
            tree.search(&format!("key_{i:06}").into_bytes()).unwrap(),
            Some((i, 0))
        );
    }
}

#[test]
fn test_vec_delete() {
    let mut tree = vec_setup(32);
    tree.insert(b"alpha".to_vec(), 1, 0).unwrap();
    tree.insert(b"beta".to_vec(), 2, 0).unwrap();
    tree.insert(b"gamma".to_vec(), 3, 0).unwrap();
    tree.delete(&b"beta".to_vec()).unwrap();
    assert!(tree.search(&b"beta".to_vec()).unwrap().is_none());
    assert_eq!(tree.search(&b"alpha".to_vec()).unwrap(), Some((1, 0)));
    assert_eq!(tree.search(&b"gamma".to_vec()).unwrap(), Some((3, 0)));
    assert_eq!(tree.len(), 2);
}

#[test]
fn test_vec_delete_many() {
    let mut tree = vec_setup(32);
    for i in 0u32..500 {
        tree.insert(format!("key_{i:06}").into_bytes(), i, 0)
            .unwrap();
    }
    for i in 0u32..250 {
        tree.delete(&format!("key_{i:06}").into_bytes()).unwrap();
    }
    assert_eq!(tree.len(), 250);
    for i in 0u32..250 {
        assert!(
            tree.search(&format!("key_{i:06}").into_bytes())
                .unwrap()
                .is_none()
        );
    }
    for i in 250u32..500 {
        assert!(
            tree.search(&format!("key_{i:06}").into_bytes())
                .unwrap()
                .is_some()
        );
    }
}

#[test]
fn test_vec_persistence() {
    let image = {
        let mut tree = BTree::<Vec<u8>>::create_with(32).unwrap();
        for i in 0u32..100 {
            tree.insert(format!("k{i:04}").into_bytes(), i, 0).unwrap();
        }
        tree.pm.image()
    };
    let tree = BTree::<Vec<u8>>::open(PageManager::new(&image)).unwrap();
    assert_eq!(tree.len(), 100);
    for i in 0u32..100 {
        assert!(tree.search(&format!("k{i:04}").into_bytes()).unwrap().is_some());
    }
}

#[test]
fn test_vec_duplicate_key() {
    let mut tree = vec_setup(32);
    tree.insert(b"dup".to_vec(), 1, 0).unwrap();
    let result = tree.insert(b"dup".to_vec(), 2, 0);
    assert!(matches!(result, Err(GrumpyError::Codec(_))));
}

#[test]
fn test_vec_delete_nonexistent() {
    let mut tree = vec_setup(32);
    let result = tree.delete(&b"ghost".to_vec());
    assert!(matches!(result, Err(GrumpyError::Codec(_))));
}

#[test]
fn test_vec_large_stress() {
    let mut tree = vec_setup(64);
    for i in 0u32..3000 {
        tree.insert(
            format!("stress_key_{i:08}").into_bytes(),
            i,
            (i % 100) as u16,
        )
        .unwrap();
    }
    assert_eq!(tree.len(), 3000);
    for i in 0u32..1500 {
        tree.delete(&format!("stress_key_{i:08}").into_bytes())
            .unwrap();
    }
    assert_eq!(tree.len(), 1500);
    for i in 1500u32..3000 {
        assert_eq!(
            tree.search(&format!("stress_key_{i:08}").into_bytes())
                .unwrap(),
            Some((i, (i % 100) as u16))
        );
    }
}

// ─── Cross-impl property: equivalent behaviour ────────────────────

/// Property check: a small mix of inserts/deletes/searches behaves the
/// same way against a `BTree<Uuid>` and a `BTree<Vec<u8>>` whose keys are
/// the canonical 16-byte serialisation of those Uuids.
#[test]
fn test_property_uuid_and_vec_agree() {
    let mut uu = BTree::<Uuid>::create().unwrap();
    let mut vv = BTree::<Vec<u8>>::create_with(16).unwrap();

    // Pseudo-random sequence of operations.
    let mut state: Vec<Uuid> = Vec::new();
    for i in 0u128..256 {
        let id = Uuid::from_u128(i.wrapping_mul(0x9E37_79B9_7F4A_7C15));
        uu.insert(id, i as u32, (i % 7) as u16).unwrap();
        vv.insert(id.to_bytes(), i as u32, (i % 7) as u16)
            .unwrap();
        state.push(id);
    }

    // Random spot checks
    for &id in state.iter().step_by(13) {
        let u = uu.search(&id).unwrap();
        let v = vv.search(&id.to_bytes()).unwrap();
        assert_eq!(u, v);
    }

    // Delete every other key.
    for &id in state.iter().step_by(2) {
        uu.delete(&id).unwrap();
        vv.delete(&id.to_bytes()).unwrap();
    }
    assert_eq!(uu.len(), vv.len());

    for (i, &id) in state.iter().enumerate() {
        let u = uu.search(&id).unwrap();
        let v = vv.search(&id.to_bytes()).unwrap();
        assert_eq!(u, v, "mismatch at index {i}");
        if i % 2 == 0 {
            assert!(u.is_none());
        } else {
            assert!(u.is_some());
        }
    }
}
