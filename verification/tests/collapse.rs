use merkle_spine::hasher::Hasher;
use merkle_spine::log::{NaryMerkleLog, TreeConfig};
use merkle_spine::mr::nary_mr;
use merkle_spine::sha::Sha256Hasher;
use merkle_spine::storage::MemoryStorage;

#[test]
fn equal_non_null_siblings_collapse_to_their_value() {
    let h = Sha256Hasher;
    let x = h.leaf(b"hello");
    assert_eq!(nary_mr(&h, &[x.clone(), x.clone()]), x);
    assert_eq!(nary_mr(&h, &[x.clone(), x.clone(), x.clone()]), x);
    let null = h.null();
    assert_eq!(nary_mr(&h, &[null.clone(), null.clone()]), null);
    assert_eq!(nary_mr(&h, &[null.clone(), x.clone()]), h.node(&[null, x]));
}

#[test]
fn a_run_of_identical_leaves_roots_at_the_leaf_hash() {
    let mut log: NaryMerkleLog<MemoryStorage, Sha256Hasher> =
        NaryMerkleLog::new(MemoryStorage::new(), Sha256Hasher, TreeConfig { arity: 2 }).unwrap();
    log.append_leaf(b"hello").unwrap();
    log.append_leaf(b"hello").unwrap();
    assert_eq!(log.root(), Sha256Hasher.leaf(b"hello"));
}

#[test]
fn distinct_values_hash_and_do_not_collapse() {
    let h = Sha256Hasher;
    let a = h.leaf(b"a");
    let b = h.leaf(b"b");
    assert_eq!(nary_mr(&h, &[a.clone(), b.clone()]), h.node(&[a, b]));
}
