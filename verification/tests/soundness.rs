use merkle_spine::proofs::{ProofStep, verify_consistency, verify_inclusion};
use merkle_spine::hasher::Hasher;
use merkle_spine::log::{NaryMerkleLog, TreeConfig};
use merkle_spine::mountain::reconstruct_inclusion_root;
use merkle_spine::sha::Sha256Hasher;
use merkle_spine::shape::rebalanced_skeleton;
use merkle_spine::storage::MemoryStorage;

#[test]
fn log_inclusion_paths_follow_the_rebalanced_skeleton() {
    for k in 2u64..=4 {
        let mut log: NaryMerkleLog<MemoryStorage, Sha256Hasher> =
            NaryMerkleLog::new(MemoryStorage::new(), Sha256Hasher, TreeConfig { arity: k }).unwrap();
        for i in 0..23u8 {
            log.append_leaf(&[i]).unwrap();
        }
        let root = log.root();
        for index in 0..23u64 {
            let proof = log.inclusion_proof(index, 23).unwrap().unwrap();
            let sk = rebalanced_skeleton(23, k, index).unwrap();
            let leaf = Sha256Hasher.leaf(&[index as u8]);
            assert_eq!(
                reconstruct_inclusion_root(&Sha256Hasher, &leaf, &sk, &proof.path),
                Some(root.clone()),
                "k={k} index={index}"
            );
            let wrong = Sha256Hasher.leaf(&[200u8]);
            assert_ne!(reconstruct_inclusion_root(&Sha256Hasher, &wrong, &sk, &proof.path), Some(root.clone()));
            if index > 0 {
                let other = rebalanced_skeleton(23, k, index - 1).unwrap();
                if other.iter().map(|s| (s.position, s.sibling_count)).collect::<Vec<_>>()
                    != sk.iter().map(|s| (s.position, s.sibling_count)).collect::<Vec<_>>()
                {
                    assert_eq!(reconstruct_inclusion_root(&Sha256Hasher, &leaf, &other, &proof.path), None);
                }
            }
        }
    }
}

#[test]
fn a_promoted_step_is_rejected() {
    let mut log: NaryMerkleLog<MemoryStorage, Sha256Hasher> =
        NaryMerkleLog::new(MemoryStorage::new(), Sha256Hasher, TreeConfig { arity: 2 }).unwrap();
    for i in 0..3u8 {
        log.append_leaf(&[i]).unwrap();
    }
    let root = log.root();
    let leaf = Sha256Hasher.leaf(&[0u8]);
    let proof = log.inclusion_proof(0, 3).unwrap().unwrap();
    assert!(verify_inclusion(&Sha256Hasher, &leaf, &proof, &root));
    let mut padded = proof.clone();
    padded.path.insert(0, ProofStep { siblings: vec![], position: 0 });
    assert!(!verify_inclusion(&Sha256Hasher, &leaf, &padded, &root));
    let mut single = proof.clone();
    single.path = vec![ProofStep { siblings: vec![], position: 0 }];
    assert!(!verify_inclusion(&Sha256Hasher, &root, &single, &root));
}

#[test]
fn an_accepted_consistency_path_binds_the_old_root() {
    for k in 2u64..=4 {
        let mut log: NaryMerkleLog<MemoryStorage, Sha256Hasher> =
            NaryMerkleLog::new(MemoryStorage::new(), Sha256Hasher, TreeConfig { arity: k }).unwrap();
        let mut roots = vec![log.root()];
        for i in 0..12u8 {
            log.append_leaf(&[i]).unwrap();
            roots.push(log.root());
        }
        for n in 2..=12u64 {
            for o in 1..n {
                let p = log.consistency_proof_for(0, o, n).unwrap().unwrap();
                // the honest path binds exactly the root at `o`
                for m in 1..=12u64 {
                    let ok = verify_consistency(&Sha256Hasher, &p, &roots[m as usize], &roots[n as usize]);
                    assert_eq!(ok, m == o, "k={} o={} n={} m={}", k, o, n, m);
                }
                // a changed start digest or sibling no longer reaches the new root
                let mut q = p.clone();
                q.start_hash[0] ^= 1;
                assert!(!verify_consistency(&Sha256Hasher, &q, &roots[o as usize], &roots[n as usize]));
                if let Some(i) = p.path.iter().position(|s| !s.siblings.is_empty()) {
                    let mut q = p.clone();
                    q.path[i].siblings[0][0] ^= 1;
                    assert!(!verify_consistency(&Sha256Hasher, &q, &roots[o as usize], &roots[n as usize]));
                }
            }
        }
    }
}
