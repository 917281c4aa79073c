//! Creating and opening B+Trees.

use grumpydb::btree::node::LeafNode;
use grumpydb::btree::BTree;
use grumpydb::page::manager::PageManager;
use grumpydb::uid::Uuid;

#[test]
fn test_uuid_btree_create_and_open() {
    let image = {
        let btree = BTree::<Uuid>::create().unwrap();
        assert_eq!(btree.len(), 0);
        assert!(btree.is_empty());
        assert_eq!(btree.height(), 1);
        assert_eq!(btree.meta.root_page_id, 2);
        btree.pm.image()
    };

    let btree = BTree::<Uuid>::open(PageManager::new(&image)).unwrap();
    assert_eq!(btree.len(), 0);
    assert_eq!(btree.height(), 1);
    assert_eq!(btree.meta.root_page_id, 2);
}

#[test]
fn test_uuid_btree_meta_persistence() {
    let image = {
        let mut btree = BTree::<Uuid>::create().unwrap();
        btree.meta.num_entries = 42;
        btree.meta.height = 3;
        btree.meta.root_page_id = 7;
        btree.flush_meta().unwrap();
        btree.pm.image()
    };

    let btree = BTree::<Uuid>::open(PageManager::new(&image)).unwrap();
    assert_eq!(btree.len(), 42);
    assert_eq!(btree.height(), 3);
    assert_eq!(btree.meta.root_page_id, 7);
}

#[test]
fn test_uuid_btree_initial_root_is_empty_leaf() {
    let btree = BTree::<Uuid>::create().unwrap();

    let buf = btree.pm.read_page(2).unwrap();
    let leaf: LeafNode<Uuid> = LeafNode::from_bytes(&buf);
    assert_eq!(leaf.num_entries, 0);
    assert_eq!(leaf.next_leaf, 0);
    assert_eq!(leaf.prev_leaf, 0);
}

#[test]
fn test_vec_btree_create_and_open() {
    let image = {
        let tree = BTree::<Vec<u8>>::create_with(64).unwrap();
        assert_eq!(tree.len(), 0);
        assert!(tree.is_empty());
        assert_eq!(tree.height(), 1);
        assert_eq!(tree.config(), 64);
        tree.pm.image()
    };

    let tree = BTree::<Vec<u8>>::open(PageManager::new(&image)).unwrap();
    assert_eq!(tree.len(), 0);
    assert_eq!(tree.height(), 1);
    assert_eq!(tree.config(), 64);
}
