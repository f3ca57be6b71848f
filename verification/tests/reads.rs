use merkle_spine::engine::{AlgView, Error};
use merkle_spine::hasher::Hasher;
use merkle_spine::log::{NaryMerkleLog, TreeConfig};
use merkle_spine::proofs::{verify_consistency, verify_inclusion};
use merkle_spine::reads::{
    consistency_proof, frontier_peaks, get_node_hash, inclusion_proof, peak_at, reconstruct_view,
    root_for_at,
};
use merkle_spine::sha::Sha256Hasher;
use merkle_spine::storage::MemoryStorage;
use merkle_spine::topology::frontier_for_size;

fn stored_log(k: u64, n: u64) -> (MemoryStorage, Vec<u8>) {
    let mut log =
        NaryMerkleLog::new(MemoryStorage::new(), Sha256Hasher, TreeConfig { arity: k }).unwrap();
    for i in 0..n {
        log.append_leaf(format!("entry {}", i).as_bytes()).unwrap();
    }
    let root = log.root();
    (log.into_storage(), root)
}

fn view(k: u64, n: u64, store: &MemoryStorage) -> AlgView<Sha256Hasher> {
    reconstruct_view(store, 0, Sha256Hasher, &[(0, u64::MAX)], n, k).unwrap()
}

#[test]
fn the_view_read_back_folds_to_the_root() {
    for k in 2..=4u64 {
        for n in 1..=13u64 {
            let (store, root) = stored_log(k, n);
            let v = view(k, n, &store);
            assert_eq!(v.frontier_coords, frontier_for_size(n, k));
            assert_eq!(root_for_at(&store, &v, 0, n, k).unwrap(), root, "k={} n={}", k, n);
            let peaks = frontier_peaks(&store, &v, 0, n, k).unwrap();
            assert_eq!(peaks, v.frontier);
        }
    }
}

#[test]
fn a_leaf_node_reads_back_as_the_leaf_digest() {
    let (store, _) = stored_log(2, 5);
    let v = view(2, 5, &store);
    let d = get_node_hash(&store, &v, 0, 3, 0, 2).unwrap();
    assert_eq!(d, Sha256Hasher.leaf(b"entry 3"));
    assert_eq!(peak_at(&store, &v, 0, 4, 0, 2).unwrap(), Sha256Hasher.leaf(b"entry 4"));
}

#[test]
fn a_range_before_activation_reads_as_null() {
    let (store, _) = stored_log(2, 4);
    let late = AlgView {
        hasher: Sha256Hasher,
        epochs: vec![(2, u64::MAX)],
        frontier: Vec::new(),
        frontier_coords: Vec::new(),
    };
    assert_eq!(get_node_hash(&store, &late, 0, 0, 1, 2).unwrap(), Sha256Hasher.null());
}

#[test]
fn a_missing_node_is_corrupt() {
    let (store, _) = stored_log(2, 4);
    let v = view(2, 4, &store);
    assert!(matches!(get_node_hash(&store, &v, 9, 0, 0, 2), Err(Error::Corrupted { alg_id: 9, .. })));
}

#[test]
fn malformed_epochs_are_corrupt() {
    let (store, _) = stored_log(2, 4);
    assert!(matches!(
        reconstruct_view(&store, 0, Sha256Hasher, &[(3, 1)], 4, 2),
        Err(Error::Corrupted { alg_id: 0, .. })
    ));
}

#[test]
fn proofs_read_from_the_store_verify() {
    for k in 2..=4u64 {
        for n in 1..=12u64 {
            let (store, root) = stored_log(k, n);
            let v = view(k, n, &store);
            for i in 0..n {
                let p = inclusion_proof(&store, &v, 0, i, n, n, k).unwrap().unwrap();
                let leaf = Sha256Hasher.leaf(format!("entry {}", i).as_bytes());
                assert!(verify_inclusion(&Sha256Hasher, &leaf, &p, &root), "k={} n={} i={}", k, n, i);
            }
            assert!(inclusion_proof(&store, &v, 0, n, n, n, k).unwrap().is_none());
            for o in 1..n {
                let p = consistency_proof(&store, &v, 0, o, n, n, k).unwrap().unwrap();
                let old_root = root_for_at(&store, &v, 0, o, k).unwrap();
                assert!(verify_consistency(&Sha256Hasher, &p, &old_root, &root), "k={} o={} n={}", k, o, n);
            }
            assert!(consistency_proof(&store, &v, 0, 0, n, n, k).unwrap().is_none());
        }
    }
}
