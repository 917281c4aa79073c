//! B+Trees with variable-length keys.

use grumpydb::btree::var_tree::VarBTree;
use grumpydb::page::manager::PageManager;

fn setup(max_key_size: u16) -> VarBTree {
    VarBTree::create(max_key_size).unwrap()
}

#[test]
fn test_var_btree_create_and_open() {
    let image = {
        let tree = VarBTree::create(64).unwrap();
        assert_eq!(tree.len(), 0);
        assert!(tree.is_empty());
        assert_eq!(tree.height(), 1);
        assert_eq!(tree.max_key_size(), 64);
        tree.pm.image()
    };

    let tree = VarBTree::open(PageManager::new(&image)).unwrap();
    assert_eq!(tree.len(), 0);
    assert_eq!(tree.height(), 1);
    assert_eq!(tree.max_key_size(), 64);
}

#[test]
fn test_var_btree_insert_and_search() {
    let mut tree = setup(32);

    tree.insert(b"hello".to_vec(), 10, 0).unwrap();
    tree.insert(b"world".to_vec(), 20, 1).unwrap();
    tree.insert(b"foo".to_vec(), 30, 2).unwrap();

    assert_eq!(tree.search(&b"hello".to_vec()).unwrap(), Some((10, 0)));
    assert_eq!(tree.search(&b"world".to_vec()).unwrap(), Some((20, 1)));
    assert_eq!(tree.search(&b"foo".to_vec()).unwrap(), Some((30, 2)));
    assert_eq!(tree.search(&b"bar".to_vec()).unwrap(), None);
    assert_eq!(tree.len(), 3);
}

#[test]
fn test_var_btree_insert_many_causes_splits() {
    let mut tree = setup(32);

    for i in 0u32..1000 {
        let key = format!("key_{i:06}");
        tree.insert(key.into_bytes(), i, 0).unwrap();
    }

    assert_eq!(tree.len(), 1000);
    assert!(tree.height() > 1, "should have split at least once");

    // Verify all keys are retrievable
    for i in 0u32..1000 {
        let key = format!("key_{i:06}");
        let result = tree.search(&key.into_bytes()).unwrap();
        assert_eq!(result, Some((i, 0)), "key_{i:06} not found");
    }
}

#[test]
fn test_var_btree_delete() {
    let mut tree = setup(32);

    tree.insert(b"alpha".to_vec(), 1, 0).unwrap();
    tree.insert(b"beta".to_vec(), 2, 0).unwrap();
    tree.insert(b"gamma".to_vec(), 3, 0).unwrap();

    tree.delete(&b"beta".to_vec()).unwrap();
    assert_eq!(tree.search(&b"beta".to_vec()).unwrap(), None);
    assert_eq!(tree.search(&b"alpha".to_vec()).unwrap(), Some((1, 0)));
    assert_eq!(tree.search(&b"gamma".to_vec()).unwrap(), Some((3, 0)));
    assert_eq!(tree.len(), 2);
}

#[test]
fn test_var_btree_delete_many() {
    let mut tree = setup(32);

    for i in 0u32..500 {
        tree.insert(format!("key_{i:06}").into_bytes(), i, 0)
            .unwrap();
    }

    // Delete first 250
    for i in 0u32..250 {
        tree.delete(&format!("key_{i:06}").into_bytes()).unwrap();
    }

    assert_eq!(tree.len(), 250);

    // Verify deleted are gone
    for i in 0u32..250 {
        assert_eq!(tree.search(&format!("key_{i:06}").into_bytes()).unwrap(), None);
    }

    // Verify remaining exist
    for i in 250u32..500 {
        assert!(
            tree.search(&format!("key_{i:06}").into_bytes())
                .unwrap()
                .is_some()
        );
    }
}

#[test]
fn test_var_btree_persistence() {
    let image = {
        let mut tree = VarBTree::create(32).unwrap();
        for i in 0u32..100 {
            tree.insert(format!("k{i:04}").into_bytes(), i, 0).unwrap();
        }
        tree.pm.image()
    };

    let tree = VarBTree::open(PageManager::new(&image)).unwrap();
    assert_eq!(tree.len(), 100);
    for i in 0u32..100 {
        assert!(tree.search(&format!("k{i:04}").into_bytes()).unwrap().is_some());
    }
}

#[test]
fn test_var_btree_duplicate_key() {
    let mut tree = setup(32);
    tree.insert(b"dup".to_vec(), 1, 0).unwrap();
    let result = tree.insert(b"dup".to_vec(), 2, 0);
    assert!(result.is_err());
}

#[test]
fn test_var_btree_delete_nonexistent() {
    let mut tree = setup(32);
    let result = tree.delete(&b"ghost".to_vec());
    assert!(result.is_err());
}

#[test]
fn test_var_btree_large_stress() {
    let mut tree = setup(64);

    // Insert 3000 keys
    for i in 0u32..3000 {
        tree.insert(
            format!("stress_key_{i:08}").into_bytes(),
            i,
            (i % 100) as u16,
        )
        .unwrap();
    }
    assert_eq!(tree.len(), 3000);

    // Delete 1500
    for i in 0u32..1500 {
        tree.delete(&format!("stress_key_{i:08}").into_bytes())
            .unwrap();
    }
    assert_eq!(tree.len(), 1500);

    // Verify remaining
    for i in 1500u32..3000 {
        let result = tree
            .search(&format!("stress_key_{i:08}").into_bytes())
            .unwrap();
        assert_eq!(result, Some((i, (i % 100) as u16)));
    }
}
