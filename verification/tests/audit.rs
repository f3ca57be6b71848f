use merkle_spine::hasher::Hasher;
use merkle_spine::storage::Storage;
use merkle_spine::consistency::reconstruct_consistency_roots;
use merkle_spine::log::{Error, NaryMerkleLog, TreeConfig};
use merkle_spine::sha::Sha256Hasher;
use merkle_spine::storage::MemoryStorage;

type Log = NaryMerkleLog<MemoryStorage, Sha256Hasher>;

fn log_of(k: u64, n: u64) -> Log {
    let mut log =
        NaryMerkleLog::new(MemoryStorage::new(), Sha256Hasher, TreeConfig { arity: k }).unwrap();
    for i in 0..n {
        log.append_leaf(format!("cell {}", i).as_bytes()).unwrap();
    }
    log
}

#[test]
fn an_untouched_log_does_not_diverge() {
    for k in 2..=4u64 {
        for n in 0..=12u64 {
            let log = log_of(k, n);
            assert_eq!(log.verify_non_divergence(None, &[]).unwrap(), true, "k={} n={}", k, n);
        }
    }
}

#[test]
fn a_checkpoint_with_its_trusted_root_does_not_diverge() {
    for k in 2..=3u64 {
        for n in 2..=10u64 {
            let log = log_of(k, n);
            for cp in 1..=n {
                let trusted = log.root_for_at(0, cp).unwrap();
                let ok = log.verify_non_divergence(Some(cp), &[(0, trusted)]).unwrap();
                assert!(ok, "k={} n={} checkpoint={}", k, n, cp);
            }
        }
    }
}

#[test]
fn a_wrong_trusted_root_is_reported() {
    let log = log_of(2, 7);
    let wrong = log.root_for_at(0, 4).unwrap();
    assert_eq!(log.verify_non_divergence(Some(3), &[(0, wrong)]).unwrap(), false);
}

#[test]
fn a_missing_trusted_root_is_an_unknown_algorithm() {
    let log = log_of(2, 7);
    assert!(matches!(log.verify_non_divergence(Some(3), &[(9, vec![1, 2, 3])]), Err(Error::UnknownAlgorithm(0))));
}

#[test]
fn a_checkpoint_past_the_log_is_rejected() {
    let log = log_of(2, 5);
    assert_eq!(log.verify_non_divergence(Some(6), &[]).unwrap(), false);
}

#[test]
fn reconstructed_roots_are_the_roots_at_both_sizes() {
    for k in 2..=5u64 {
        for n in 2..=14u64 {
            let log = log_of(k, n);
            for o in 1..n {
                let p = log.consistency_proof(o, n).unwrap().unwrap();
                let (old_root, new_root) = reconstruct_consistency_roots(
                    &Sha256Hasher,
                    o,
                    n,
                    k,
                    &p.start_hash,
                    &p.path,
                )
                .unwrap();
                assert_eq!(old_root, log.root_for_at(0, o).unwrap(), "k={} o={} n={}", k, o, n);
                assert_eq!(new_root, log.root_for_at(0, n).unwrap(), "k={} o={} n={}", k, o, n);
            }
        }
    }
}

#[test]
fn reconstruction_rejects_bad_bounds() {
    let log = log_of(3, 6);
    let p = log.consistency_proof(2, 6).unwrap().unwrap();
    assert!(reconstruct_consistency_roots(&Sha256Hasher, 0, 6, 3, &p.start_hash, &p.path).is_none());
    assert!(reconstruct_consistency_roots(&Sha256Hasher, 6, 6, 3, &p.start_hash, &p.path).is_none());
    assert!(reconstruct_consistency_roots(&Sha256Hasher, 2, 6, 1, &p.start_hash, &p.path).is_none());
    assert!(reconstruct_consistency_roots(&Sha256Hasher, 2, 6, 3, &p.start_hash[1..], &p.path).is_none());
    // the path for another arity does not fit
    assert!(reconstruct_consistency_roots(&Sha256Hasher, 2, 6, 2, &p.start_hash, &p.path).is_none());
    // an extra step is refused
    let mut longer = p.path.clone();
    longer.push(p.path[0].clone());
    assert!(reconstruct_consistency_roots(&Sha256Hasher, 2, 6, 3, &p.start_hash, &longer).is_none());
}

fn two_leaf_store(second: &[u8]) -> MemoryStorage {
    let h = Sha256Hasher;
    let la = h.leaf(b"a");
    let lb = h.leaf(b"b");
    let mut s = MemoryStorage::new();
    s.store_leaf(0, b"a").unwrap();
    s.store_leaf(1, second).unwrap();
    s.store_node(0, 0, &la).unwrap();
    s.store_node(0, 1 << 16, &lb).unwrap();
    s.store_node(0, 1, &h.node(&[la.clone(), lb.clone()])).unwrap();
    s.store_algorithm_meta(0, &[(0, u64::MAX)]).unwrap();
    s
}

#[test]
fn a_tampered_raw_leaf_diverges() {
    let honest: Log = NaryMerkleLog::from_storage(two_leaf_store(b"b"), vec![(0, Sha256Hasher)]).unwrap();
    assert_eq!(honest.verify_non_divergence(None, &[]), Ok(true));
    let tampered: Log = NaryMerkleLog::from_storage(two_leaf_store(b"x"), vec![(0, Sha256Hasher)]).unwrap();
    assert_eq!(tampered.verify_non_divergence(None, &[]), Ok(false));
}

#[test]
fn a_checkpoint_past_the_count_diverges() {
    let log = log_of(2, 2);
    assert_eq!(log.verify_non_divergence(Some(3), &[]), Ok(false));
}

#[test]
fn an_append_keeps_every_stored_node() {
    let mut log = log_of(2, 3);
    let keys = [0u64, 1 << 16, 2 << 16, 1, 2];
    let before: Vec<Option<Vec<u8>>> = keys.iter().map(|&key| log.storage().get_node(0, key).unwrap()).collect();
    assert!(before[4].is_none());
    log.append_leaf(b"cell 3").unwrap();
    for (i, &key) in keys.iter().enumerate() {
        let after = log.storage().get_node(0, key).unwrap();
        if before[i].is_some() {
            assert_eq!(after, before[i], "key {}", key);
        }
    }
    assert!(log.storage().get_node(0, 2).unwrap().is_some());
}

#[test]
fn an_append_to_a_reloaded_log_keeps_every_stored_node() {
    let store = log_of(3, 8).into_storage();
    let mut log: Log =
        NaryMerkleLog::from_storage_with_config(store, vec![(0, Sha256Hasher)], TreeConfig { arity: 3 })
            .unwrap();
    assert_eq!(log.count(), 8);
    let keys: Vec<u64> = (0..10u64).flat_map(|l| (0..3u64).map(move |h| (l << 16) | h)).collect();
    let before: Vec<Option<Vec<u8>>> = keys.iter().map(|&key| log.storage().get_node(0, key).unwrap()).collect();
    assert!(before.iter().filter(|b| b.is_some()).count() >= 8);
    log.append_leaf(b"cell 8").unwrap();
    for (i, &key) in keys.iter().enumerate() {
        if before[i].is_some() {
            assert_eq!(log.storage().get_node(0, key).unwrap(), before[i], "key {}", key);
        }
    }
    // the append completed the subtree over cells 0..9 at height 2
    assert!(before[2].is_none());
    assert!(log.storage().get_node(0, 2).unwrap().is_some());
}

#[test]
fn reloading_a_store_with_a_gap_takes_the_size_the_probe_finds() {
    // no raw leaves: the size comes from the open algorithm's height-0 nodes,
    // present at 0, 1, 2 and 5; doubling from 0 finds 4 missing, bisecting
    // [0, 4) lands on 3, so the node at 5 past the gap is not counted.
    let h = Sha256Hasher;
    let leaves: Vec<Vec<u8>> = (0..6u8).map(|i| h.leaf(&[i])).collect();
    let mut s = MemoryStorage::new();
    for &i in &[0u64, 1, 2, 5] {
        s.store_node(0, i << 16, &leaves[i as usize]).unwrap();
    }
    s.store_node(0, 1, &h.node(&[leaves[0].clone(), leaves[1].clone()])).unwrap();
    s.store_algorithm_meta(0, &[(0, u64::MAX)]).unwrap();
    let log: Log = NaryMerkleLog::from_storage(s, vec![(0, Sha256Hasher)]).unwrap();
    assert_eq!(log.count(), 3);
}
