use merkle_spine::hasher::Hasher;
use merkle_spine::log::{Error, NaryMerkleLog, TreeConfig};
use merkle_spine::mr::{Subtree, evaluate};
use merkle_spine::proofs::{verify_consistency, verify_inclusion};
use merkle_spine::sha::Sha256Hasher;
use merkle_spine::storage::{MemoryStorage, Storage};
use sha2::{Digest, Sha256};

type Log = NaryMerkleLog<MemoryStorage, Sha256Hasher>;

fn new_log(k: u64) -> Log {
    NaryMerkleLog::new(MemoryStorage::new(), Sha256Hasher, TreeConfig { arity: k }).unwrap()
}

#[test]
fn test_vector_1_single_leaf() {
    let mut log = new_log(2);
    log.append_leaf(b"hello").unwrap();
    let root = log.root();
    let expected = vec![
        0x2c, 0xf2, 0x4d, 0xba, 0x5f, 0xb0, 0xa3, 0x0e, 0x26, 0xe8, 0x3b, 0x2a, 0xc5, 0xb9, 0xe2,
        0x9e, 0x1b, 0x16, 0x1e, 0x5c, 0x1f, 0xa7, 0x42, 0x5e, 0x73, 0x04, 0x33, 0x62, 0x93, 0x8b,
        0x98, 0x24,
    ];
    assert_eq!(root, expected);
}

#[test]
fn test_vector_2_two_leaves_k2() {
    let mut log = new_log(2);
    log.append_leaf(b"a").unwrap();
    log.append_leaf(b"b").unwrap();
    let root = log.root();

    let h_a = Sha256::digest(b"a");
    let h_b = Sha256::digest(b"b");
    let mut h = Sha256::new();
    h.update(h_a);
    h.update(h_b);
    let expected = h.finalize().to_vec();

    assert_eq!(root, expected);
}

#[test]
fn test_vector_3_three_leaves_k2() {
    let mut log = new_log(2);
    log.append_leaf(b"a").unwrap();
    log.append_leaf(b"b").unwrap();
    log.append_leaf(b"c").unwrap();
    let root = log.root();

    let h_a = Sha256::digest(b"a");
    let h_b = Sha256::digest(b"b");
    let h_ab = Sha256::digest([h_a.as_slice(), h_b.as_slice()].concat());
    let h_c = Sha256::digest(b"c");

    let mut h = Sha256::new();
    h.update(h_ab);
    h.update(h_c);
    let expected = h.finalize().to_vec();

    assert_eq!(root, expected);
}

#[test]
fn test_vector_4_singleton_promotion() {
    let tree = Subtree::Node(vec![Subtree::Leaf(b"x".to_vec())]);
    let evaluated = evaluate(&Sha256Hasher, &tree);
    let expected = Sha256::digest(b"x").to_vec();
    assert_eq!(evaluated, expected);
}

#[test]
fn test_vector_5_nested_promotion() {
    let tree = Subtree::Node(vec![Subtree::Node(vec![Subtree::Leaf(b"x".to_vec())])]);
    let evaluated = evaluate(&Sha256Hasher, &tree);
    let expected = Sha256::digest(b"x").to_vec();
    assert_eq!(evaluated, expected);
}

#[test]
fn test_vector_6_subtree_append_k2() {
    let mut log = new_log(2);
    let subtree0 = Subtree::Node(vec![Subtree::Leaf(b"a".to_vec()), Subtree::Leaf(b"b".to_vec())]);
    let subtree1 = Subtree::Node(vec![Subtree::Leaf(b"c".to_vec())]);

    log.append_subtree(&subtree0).unwrap();
    log.append_subtree(&subtree1).unwrap();
    let root = log.root();

    let h_a = Sha256::digest(b"a");
    let h_b = Sha256::digest(b"b");
    let h_ab = Sha256::digest([h_a.as_slice(), h_b.as_slice()].concat());
    let h_c = Sha256::digest(b"c");

    let mut h = Sha256::new();
    h.update(h_ab);
    h.update(h_c);
    let expected = h.finalize().to_vec();

    assert_eq!(root, expected);
}

#[test]
fn test_vector_7_null_constant() {
    let null = Sha256Hasher.null();
    let expected = vec![
        0xdb, 0xc1, 0xb4, 0xc9, 0x00, 0xff, 0xe4, 0x8d, 0x57, 0x5b, 0x5d, 0xa5, 0xc6, 0x38, 0x04,
        0x01, 0x25, 0xf6, 0x5d, 0xb0, 0xfe, 0x3e, 0x24, 0x49, 0x4b, 0x76, 0xea, 0x98, 0x64, 0x57,
        0xd9, 0x86,
    ];
    assert_eq!(null, expected);
}

#[test]
fn test_vector_8_three_leaves_k3_ternary() {
    let mut log = new_log(3);
    log.append_leaf(b"a").unwrap();
    log.append_leaf(b"b").unwrap();
    log.append_leaf(b"c").unwrap();
    let root = log.root();

    let h_a = Sha256::digest(b"a");
    let h_b = Sha256::digest(b"b");
    let h_c = Sha256::digest(b"c");

    let mut h = Sha256::new();
    h.update(h_a);
    h.update(h_b);
    h.update(h_c);
    let expected = h.finalize().to_vec();

    assert_eq!(root, expected);
}

fn manual_prefix_free_mth(leaves: &[Vec<u8>]) -> Vec<u8> {
    if leaves.is_empty() {
        return Sha256Hasher.empty();
    }
    if leaves.len() == 1 {
        return leaves[0].clone();
    }
    let n = leaves.len();
    let k = n.next_power_of_two() / 2;
    let k = if k == n { k / 2 } else { k };

    let left = manual_prefix_free_mth(&leaves[0..k]);
    let right = manual_prefix_free_mth(&leaves[k..n]);
    Sha256Hasher.node(&[left, right])
}

#[test]
fn test_binary_compatibility_random_sizes() {
    for size in 1..=16 {
        let mut log = new_log(2);
        let mut leaves = Vec::new();
        for i in 0..size {
            let data = format!("leaf_{}", i).into_bytes();
            log.append_leaf(&data).unwrap();
            leaves.push(Sha256Hasher.leaf(&data));
        }
        let mth_root = manual_prefix_free_mth(&leaves);
        assert_eq!(log.root(), mth_root, "binary MTH mismatch at size {}", size);
    }
}

#[test]
fn test_inclusion_and_consistency_proofs_simple() {
    let mut log = new_log(2);
    log.append_leaf(b"a").unwrap();
    log.append_leaf(b"b").unwrap();
    log.append_leaf(b"c").unwrap();
    log.append_leaf(b"d").unwrap();

    let proof = log.inclusion_proof(2, 4).unwrap().unwrap();
    let leaf_hash = Sha256Hasher.leaf(b"c");
    let root = log.root();
    assert!(verify_inclusion(&Sha256Hasher, &leaf_hash, &proof, &root));

    let cons_proof = log.consistency_proof(2, 4).unwrap().unwrap();
    let old_root = {
        let mut temp_log = new_log(2);
        temp_log.append_leaf(b"a").unwrap();
        temp_log.append_leaf(b"b").unwrap();
        temp_log.root()
    };
    assert!(verify_consistency(&Sha256Hasher, &cons_proof, &old_root, &root));
}

#[test]
fn test_inclusion_and_consistency_proofs_various_arities() {
    for k in 2..=4u64 {
        for size in 1..=15u64 {
            let mut log = new_log(k);
            let mut leaves = Vec::new();
            for i in 0..size {
                let data = format!("leaf_{}_{}", k, i).into_bytes();
                log.append_leaf(&data).unwrap();
                leaves.push(Sha256Hasher.leaf(&data));
            }

            let root = log.root();

            for idx in 0..size {
                let proof = log.inclusion_proof(idx, size).unwrap().unwrap();
                assert!(verify_inclusion(&Sha256Hasher, &leaves[idx as usize], &proof, &root));
            }

            for old_size in 1..size {
                let cons_proof = log.consistency_proof(old_size, size).unwrap().unwrap();
                let old_root = {
                    let mut temp_log = new_log(k);
                    for i in 0..old_size {
                        let data = format!("leaf_{}_{}", k, i).into_bytes();
                        temp_log.append_leaf(&data).unwrap();
                    }
                    temp_log.root()
                };
                if !verify_consistency(&Sha256Hasher, &cons_proof, &old_root, &root) {
                    panic!(
                        "verify_consistency failed for k={}, size={}, old_size={}, \
                         cons_proof={:?}, old_root={:?}, root={:?}",
                        k, size, old_size, cons_proof, old_root, root
                    );
                }
            }
        }
    }
}

#[test]
fn test_epoch_from_storage_single_algorithm() {
    let mut log = new_log(2);
    for i in 0..20u8 {
        log.append_leaf(&[i]).unwrap();
    }

    let original_root = log.root_for(0).unwrap();
    let original_size = log.size();

    let storage = log.into_storage();
    let reconstructed: Log = NaryMerkleLog::from_storage(storage, vec![(0, Sha256Hasher)]).unwrap();

    assert_eq!(reconstructed.size(), original_size);
    assert_eq!(reconstructed.root_for(0).unwrap(), original_root);
}

#[test]
fn test_epoch_from_storage_multi_algorithm_frozen_active() {
    let config = TreeConfig { arity: 3 };
    let mut log: Log = NaryMerkleLog::new(MemoryStorage::new(), Sha256Hasher, config).unwrap();
    log.add_algorithm(1, Sha256Hasher).unwrap();

    for i in 0..10u8 {
        log.append_leaf(&[i]).unwrap();
    }

    log.remove_algorithm(1).unwrap();

    for i in 10..20u8 {
        log.append_leaf(&[i]).unwrap();
    }

    let root0 = log.root_for(0).unwrap();
    let root1 = log.root_for(1).unwrap();

    let storage = log.into_storage();
    let reconstructed: Log = NaryMerkleLog::from_storage_with_config(
        storage,
        vec![(0, Sha256Hasher), (1, Sha256Hasher)],
        config,
    )
    .unwrap();

    assert_eq!(reconstructed.root_for(0).unwrap(), root0);
    assert_eq!(reconstructed.root_for(1).unwrap(), root1);
}

#[test]
fn test_epoch_from_storage_resume_after_gap() {
    let mut log = new_log(2);
    for i in 0..4u8 {
        log.append_leaf(&[i]).unwrap();
    }
    log.remove_algorithm(0).unwrap();

    log.add_algorithm(1, Sha256Hasher).unwrap();
    for i in 4..8u8 {
        log.append_leaf(&[i]).unwrap();
    }

    log.resume_algorithm(0).unwrap();
    for i in 8..16u8 {
        log.append_leaf(&[i]).unwrap();
    }

    let root0 = log.root_for(0).unwrap();
    let root1 = log.root_for(1).unwrap();

    let storage = log.into_storage();
    let reconstructed: Log =
        NaryMerkleLog::from_storage(storage, vec![(0, Sha256Hasher), (1, Sha256Hasher)]).unwrap();

    assert_eq!(reconstructed.root_for(0).unwrap(), root0);
    assert_eq!(reconstructed.root_for(1).unwrap(), root1);
}

#[test]
fn test_epoch_from_storage_continued_appends() {
    let mut original = new_log(2);
    for i in 0..10u8 {
        original.append_leaf(&[i]).unwrap();
    }

    let storage = original.into_storage();
    let mut reconstructed: Log = NaryMerkleLog::from_storage(storage, vec![(0, Sha256Hasher)]).unwrap();

    let mut reference = new_log(2);
    for i in 0..10u8 {
        reference.append_leaf(&[i]).unwrap();
    }

    for i in 10..20u8 {
        reconstructed.append_leaf(&[i]).unwrap();
        reference.append_leaf(&[i]).unwrap();
    }

    assert_eq!(reconstructed.root_for(0).unwrap(), reference.root_for(0).unwrap());
    assert_eq!(reconstructed.size(), reference.size());
}

#[test]
fn test_epoch_errors() {
    let mut log = new_log(2);
    assert!(matches!(log.add_algorithm(0, Sha256Hasher), Err(Error::DuplicateAlgorithm(0))));
    assert!(matches!(log.remove_algorithm(999), Err(Error::UnknownAlgorithm(999))));
    assert!(matches!(log.resume_algorithm(999), Err(Error::UnknownAlgorithm(999))));

    log.remove_algorithm(0).unwrap();
    assert!(matches!(log.remove_algorithm(0), Err(Error::FrozenAlgorithm(0))));

    log.resume_algorithm(0).unwrap();
    assert!(matches!(log.resume_algorithm(0), Err(Error::AlgorithmActive(0))));
}

#[test]
fn test_epoch_subtree_commit_mode() {
    let mut log = new_log(2);
    log.add_algorithm(1, Sha256Hasher).unwrap();

    let commit0 = Subtree::Node(vec![Subtree::Leaf(b"a".to_vec()), Subtree::Leaf(b"b".to_vec())]);
    let commit1 = Subtree::Node(vec![Subtree::Leaf(b"c".to_vec())]);

    log.append_subtree(&commit0).unwrap();
    log.remove_algorithm(1).unwrap();
    log.append_subtree(&commit1).unwrap();

    let root0 = log.root_for(0).unwrap();
    let root1 = log.root_for(1).unwrap();

    let storage = log.into_storage();
    let reconstructed: Log =
        NaryMerkleLog::from_storage(storage, vec![(0, Sha256Hasher), (1, Sha256Hasher)]).unwrap();

    assert_eq!(reconstructed.commit_count(), 2);
    assert_eq!(reconstructed.root_for(0).unwrap(), root0);
    assert_eq!(reconstructed.root_for(1).unwrap(), root1);
}

#[test]
fn test_epoch_proofs() {
    let mut log = new_log(2);
    log.add_algorithm(1, Sha256Hasher).unwrap();

    log.append_leaf(b"a").unwrap();
    log.append_leaf(b"b").unwrap();
    log.remove_algorithm(1).unwrap();
    log.append_leaf(b"c").unwrap();
    log.append_leaf(b"d").unwrap();

    let proof0 = log.inclusion_proof_for(0, 2, 4).unwrap().unwrap();
    let root0 = log.root_for(0).unwrap();
    assert!(verify_inclusion(&Sha256Hasher, &Sha256Hasher.leaf(b"c"), &proof0, &root0));

    let proof1 = log.inclusion_proof_for(1, 1, 2).unwrap().unwrap();
    let root1 = log.root_for(1).unwrap();
    assert!(verify_inclusion(&Sha256Hasher, &Sha256Hasher.leaf(b"b"), &proof1, &root1));

    assert!(log.inclusion_proof_for(1, 2, 2).unwrap().is_none());
}

fn nary_mr_local(children: &[&[u8]]) -> Vec<u8> {
    match children.len() {
        0 => Sha256Hasher.empty(),
        1 => children[0].to_vec(),
        _ => {
            let null_const = Sha256Hasher.null();
            if children.iter().all(|&c| c == null_const) {
                null_const
            } else {
                let owned: Vec<Vec<u8>> = children.iter().map(|c| c.to_vec()).collect();
                Sha256Hasher.node(&owned)
            }
        },
    }
}

#[test]
fn test_resume_persists_mixed_nodes_malt() {
    let mut log = new_log(2);
    for i in 0..3u8 {
        log.append_leaf(&[i]).unwrap();
    }
    log.remove_algorithm(0).unwrap();

    log.add_algorithm(1, Sha256Hasher).unwrap();
    for i in 3..8u8 {
        log.append_leaf(&[i]).unwrap();
    }

    log.resume_algorithm(0).unwrap();

    let storage = log.into_storage();

    assert!(storage.get_node(0, 3).unwrap().is_some(), "mixed node [0, 8) height 3 not persisted");
    assert!(storage.get_node(0, 2).unwrap().is_some(), "mixed node [0, 4) height 2 not persisted");
    assert!(storage.get_node(0, 131073).unwrap().is_some(), "mixed node [2, 4) height 1 not persisted");
    assert!(storage.get_node(0, 1).unwrap().is_some(), "active node [0, 2) height 1 missing");

    let h0 = Sha256Hasher.leaf(&[0]);
    let h1 = Sha256Hasher.leaf(&[1]);
    let h2 = Sha256Hasher.leaf(&[2]);
    let hn = Sha256Hasher.null();

    let n_0_2 = nary_mr_local(&[h0.as_slice(), h1.as_slice()]);
    let n_2_4 = nary_mr_local(&[h2.as_slice(), hn.as_slice()]);
    let n_0_4 = nary_mr_local(&[n_0_2.as_slice(), n_2_4.as_slice()]);

    let n_4_6 = nary_mr_local(&[hn.as_slice(), hn.as_slice()]);
    let n_6_8 = nary_mr_local(&[hn.as_slice(), hn.as_slice()]);
    let n_4_8 = nary_mr_local(&[n_4_6.as_slice(), n_6_8.as_slice()]);

    let n_0_8 = nary_mr_local(&[n_0_4.as_slice(), n_4_8.as_slice()]);

    assert_eq!(storage.get_node(0, 3).unwrap(), Some(n_0_8));
    assert_eq!(storage.get_node(0, 2).unwrap(), Some(n_0_4));
    assert_eq!(storage.get_node(0, 131073).unwrap(), Some(n_2_4));
}

#[test]
fn test_promotion_proofs_malt() {
    let mut log = new_log(3);

    log.append_leaf(b"x").unwrap();
    let root = log.root();

    let proof = log.inclusion_proof_for(0, 0, 1).unwrap().unwrap();
    assert!(proof.path.is_empty());
    assert!(verify_inclusion(&Sha256Hasher, &Sha256Hasher.leaf(b"x"), &proof, &root));

    log.append_leaf(b"y").unwrap();
    log.append_leaf(b"z").unwrap();
    let root = log.root();

    let proof = log.inclusion_proof_for(0, 2, 3).unwrap().unwrap();
    assert_eq!(proof.path.len(), 1);
    assert!(verify_inclusion(&Sha256Hasher, &Sha256Hasher.leaf(b"z"), &proof, &root));
}

#[test]
fn test_subtree_consistency_proofs() {
    for k in 2..=4u64 {
        for size in 2..=15u64 {
            let mut log = new_log(k);
            let mut subtrees = Vec::new();
            for i in 0..size {
                let subtree = if i % 2 == 0 {
                    Subtree::Node(vec![
                        Subtree::Leaf(format!("a_{}_{}", k, i).into_bytes()),
                        Subtree::Leaf(format!("b_{}_{}", k, i).into_bytes()),
                    ])
                } else {
                    Subtree::Node(vec![Subtree::Leaf(format!("c_{}_{}", k, i).into_bytes())])
                };
                log.append_subtree(&subtree).unwrap();
                subtrees.push(subtree);
            }

            let root = log.root();

            for old_size in 1..size {
                let cons_proof = log.consistency_proof(old_size, size).unwrap().unwrap();
                let old_root = {
                    let mut temp_log = new_log(k);
                    for i in 0..old_size {
                        temp_log.append_subtree(&subtrees[i as usize]).unwrap();
                    }
                    temp_log.root()
                };
                assert!(
                    verify_consistency(&Sha256Hasher, &cons_proof, &old_root, &root),
                    "verify_consistency failed for subtree log: k={}, size={}, old_size={}",
                    k,
                    size,
                    old_size
                );
            }
        }
    }
}

#[test]
fn test_subtree_appends_k3_k4() {
    {
        let mut log = new_log(3);
        let s0 = Subtree::Node(vec![Subtree::Leaf(b"a".to_vec()), Subtree::Leaf(b"b".to_vec())]);
        let s1 = Subtree::Leaf(b"c".to_vec());
        let s2 = Subtree::Node(vec![
            Subtree::Leaf(b"d".to_vec()),
            Subtree::Leaf(b"e".to_vec()),
            Subtree::Leaf(b"f".to_vec()),
        ]);

        log.append_subtree(&s0).unwrap();
        log.append_subtree(&s1).unwrap();
        log.append_subtree(&s2).unwrap();

        let root = log.root();

        let h0 = evaluate(&Sha256Hasher, &s0);
        let h1 = evaluate(&Sha256Hasher, &s1);
        let h2 = evaluate(&Sha256Hasher, &s2);

        let expected = Sha256Hasher.node(&[h0, h1, h2]);
        assert_eq!(root, expected, "Root mismatch for k=3 subtree appends");
    }
    {
        let mut log = new_log(4);
        let s0 = Subtree::Leaf(b"a".to_vec());
        let s1 = Subtree::Leaf(b"b".to_vec());
        let s2 = Subtree::Leaf(b"c".to_vec());
        let s3 = Subtree::Leaf(b"d".to_vec());

        log.append_subtree(&s0).unwrap();
        log.append_subtree(&s1).unwrap();
        log.append_subtree(&s2).unwrap();
        log.append_subtree(&s3).unwrap();

        let root = log.root();

        let h0 = evaluate(&Sha256Hasher, &s0);
        let h1 = evaluate(&Sha256Hasher, &s1);
        let h2 = evaluate(&Sha256Hasher, &s2);
        let h3 = evaluate(&Sha256Hasher, &s3);

        let expected = Sha256Hasher.node(&[h0, h1, h2, h3]);
        assert_eq!(root, expected, "Root mismatch for k=4 subtree appends");
    }
}
