use merkle_spine::storage::{MemoryStorage, Storage};

#[test]
fn storage_test_memory_storage_leaves() {
    let mut storage = MemoryStorage::new();
    assert!(storage.is_empty());
    assert_eq!(storage.len(), 0);

    storage.store_leaf(0, b"leaf0").unwrap();
    assert!(!storage.is_empty());
    assert_eq!(storage.len(), 1);
    assert_eq!(storage.get_leaf(0).unwrap(), b"leaf0");

    // Out of bounds retrieval
    assert!(storage.get_leaf(1).is_err());
}

#[test]
fn storage_test_memory_storage_nodes() {
    let mut storage = MemoryStorage::new();
    assert_eq!(storage.get_node(1, 42).unwrap(), None);

    storage.store_node(1, 42, b"node_hash").unwrap();
    assert_eq!(storage.get_node(1, 42).unwrap(), Some(b"node_hash".to_vec()));
}

#[test]
fn storage_keeps_the_first_value_of_a_key() {
    let mut storage = MemoryStorage::new();
    storage.store_node(3, 7, b"first").unwrap();
    storage.store_node(3, 7, b"second").unwrap();
    assert_eq!(storage.get_node(3, 7).unwrap(), Some(b"second".to_vec()));
    assert_eq!(storage.get_node(4, 7).unwrap(), None);
}

#[test]
fn storage_lists_algorithm_metadata() {
    let mut storage = MemoryStorage::new();
    storage.store_algorithm_meta(0, &[(0, u64::MAX)]).unwrap();
    storage.store_algorithm_meta(5, &[(2, 4)]).unwrap();
    storage.store_algorithm_meta(0, &[(0, 9)]).unwrap();
    let mut metas = storage.load_algorithm_metas().unwrap();
    metas.sort();
    assert_eq!(metas, vec![(0, vec![(0, 9)]), (5, vec![(2, 4)])]);
}

#[test]
fn memory_storage_writes_succeed_and_missing_leaf_reports_its_index() {
    let mut storage = MemoryStorage::new();
    assert!(storage.store_node(3, 9, b"h").is_ok());
    assert!(storage.store_algorithm_meta(3, &[(0, u64::MAX)]).is_ok());
    assert_eq!(storage.load_algorithm_metas().unwrap(), vec![(3, vec![(0, u64::MAX)])]);
    assert_eq!(storage.get_node(3, 10).unwrap(), None);
    storage.store_leaf(0, b"a").unwrap();
    let e = storage.get_leaf(4).unwrap_err();
    assert_eq!(e.index, 4);
    assert_eq!(e.stored, 1);
}
