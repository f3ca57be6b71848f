use merkle_spine::log::{Error, NaryMerkleLog, TreeConfig};
use merkle_spine::mountain::{bag_peaks, verify_consistency};
use merkle_spine::sha::Sha256Hasher;
use merkle_spine::storage::MemoryStorage;
use merkle_spine::topology::frontier_for_size;

fn built_log(k: u64, n: u64) -> NaryMerkleLog<MemoryStorage, Sha256Hasher> {
    let mut log =
        NaryMerkleLog::new(MemoryStorage::new(), Sha256Hasher, TreeConfig { arity: k }).unwrap();
    for i in 0..n {
        log.append_leaf(format!("cell {}", i).as_bytes()).unwrap();
    }
    log
}

/// The bag of the frontier peaks of the first `size` cells, read back.
fn bagged_root(log: &NaryMerkleLog<MemoryStorage, Sha256Hasher>, size: u64, k: u64) -> Vec<u8> {
    let peaks: Vec<Vec<u8>> = frontier_for_size(size, k)
        .iter()
        .map(|&(l, h)| log.peak_at(0, l, h).unwrap())
        .collect();
    bag_peaks(&Sha256Hasher, &peaks, k)
}

#[test]
fn mountain_consistency_proofs_verify_between_every_pair_of_sizes() {
    for k in 2..=4u64 {
        let n_max = 14u64;
        let log = built_log(k, n_max);
        for n in 2..=n_max {
            let new_root = bagged_root(&log, n, k);
            for o in 1..n {
                let old_root = bagged_root(&log, o, k);
                let p = log.mountain_consistency_proof_for(0, o, n).unwrap().unwrap();
                assert!(verify_consistency(
                    &Sha256Hasher,
                    o,
                    n,
                    k,
                    &p.boundary_hash,
                    &p.peak_path,
                    &p.new_peaks,
                    p.split_index,
                    &old_root,
                    &new_root,
                ));
            }
        }
    }
}

#[test]
fn a_tampered_mountain_consistency_proof_is_rejected() {
    let k = 3u64;
    let log = built_log(k, 11);
    let (o, n) = (4u64, 11u64);
    let old_root = bagged_root(&log, o, k);
    let new_root = bagged_root(&log, n, k);
    let p = log.mountain_consistency_proof_for(0, o, n).unwrap().unwrap();
    let mut boundary = p.boundary_hash.clone();
    boundary[0] ^= 1;
    assert!(!verify_consistency(
        &Sha256Hasher, o, n, k, &boundary, &p.peak_path, &p.new_peaks, p.split_index, &old_root,
        &new_root,
    ));
    let mut peaks = p.new_peaks.clone();
    peaks[0][0] ^= 1;
    assert!(!verify_consistency(
        &Sha256Hasher, o, n, k, &p.boundary_hash, &p.peak_path, &peaks, p.split_index, &old_root,
        &new_root,
    ));
    // the honest proof checked against another old size's root fails
    let other_old = bagged_root(&log, o + 1, k);
    assert!(!verify_consistency(
        &Sha256Hasher, o, n, k, &p.boundary_hash, &p.peak_path, &p.new_peaks, p.split_index,
        &other_old, &new_root,
    ));
}

#[test]
fn mountain_consistency_proof_out_of_range_is_none() {
    let log = built_log(2, 6);
    assert!(log.mountain_consistency_proof_for(0, 0, 4).unwrap().is_none());
    assert!(log.mountain_consistency_proof_for(0, 4, 4).unwrap().is_none());
    assert!(log.mountain_consistency_proof_for(0, 5, 4).unwrap().is_none());
    assert!(log.mountain_consistency_proof_for(0, 2, 7).unwrap().is_none());
    assert!(matches!(
        log.mountain_consistency_proof_for(9, 2, 4),
        Err(Error::UnknownAlgorithm(9))
    ));
}

#[test]
fn mountain_consistency_proof_of_a_binary_log_of_five() {
    // sizes 3 -> 5 at arity 2: old frontier (0,1),(2,0); the boundary (2,0)
    // sits in the new peak (0,2); the climb has two steps.
    let log = built_log(2, 5);
    let p = log.mountain_consistency_proof_for(0, 3, 5).unwrap().unwrap();
    assert_eq!(p.split_index, 0);
    assert_eq!(p.new_peaks.len(), 2);
    assert_eq!(p.peak_path.len(), 2);
    assert_eq!(p.peak_path[0].position, 0);
    assert_eq!(p.peak_path[1].position, 1);
    assert_eq!(p.boundary_hash, log.peak_at(0, 2, 0).unwrap());
    assert_eq!(p.new_peaks[0], log.peak_at(0, 0, 2).unwrap());
    assert_eq!(p.new_peaks[1], log.peak_at(0, 4, 0).unwrap());
}
