use merkle_spine::mountain::{
    BagNode, SkeletonStep, bag_path, bag_peaks, bag_shape, mountain_skeleton,
    reconstruct_inclusion_root,
};
use merkle_spine::mr::nary_mr;
use merkle_spine::sha::Sha256Hasher;

/// Synthetic distinct peak digests `[0x10+i; 32]` for a peak set of `m`.
fn peaks(m: usize) -> Vec<Vec<u8>> {
    (0..m).map(|i| vec![0x10 + i as u8; 32]).collect()
}

/// Whether `node` covers peak `target`.
fn covers(node: &BagNode, target: usize) -> bool {
    match node {
        BagNode::Peak(i) => *i == target,
        BagNode::Bag(children) => children.iter().any(|c| covers(c, target)),
    }
}

/// The bag-path skeleton of peak `f_idx`, peak to root.
fn bag_skeleton(shape: &BagNode, f_idx: usize) -> Vec<SkeletonStep> {
    let mut down = Vec::new();
    let mut node = shape;
    while let BagNode::Bag(children) = node {
        let position = children.iter().position(|c| covers(c, f_idx)).unwrap();
        down.push(SkeletonStep {
            position,
            sibling_count: children.len() - 1,
        });
        node = &children[position];
    }
    down.reverse();
    down
}

#[test]
fn single_peak_promotes() {
    let peak = vec![0xAB; 32];
    assert_eq!(bag_peaks(&Sha256Hasher, std::slice::from_ref(&peak), 2), peak);
    assert_eq!(mountain_skeleton(2, 1, 0), Some(vec![]));
}

#[test]
fn bag_shape_is_backward_recursive_binary() {
    // k=2, 4 peaks: H(P0, H(P1, H(P2, P3)))
    let shape = bag_shape(4, 2).unwrap();
    let expected = BagNode::Bag(vec![
        BagNode::Peak(0),
        BagNode::Bag(vec![
            BagNode::Peak(1),
            BagNode::Bag(vec![BagNode::Peak(2), BagNode::Peak(3)]),
        ]),
    ]);
    assert_eq!(shape, expected);
}

#[test]
fn bag_peaks_equals_hand_fold_binary() {
    let peaks: Vec<Vec<u8>> = (0u8..4).map(|i| vec![i; 32]).collect();
    // H(P0, H(P1, H(P2, P3)))
    let inner = nary_mr(&Sha256Hasher, &[peaks[2].clone(), peaks[3].clone()]);
    let mid = nary_mr(&Sha256Hasher, &[peaks[1].clone(), inner]);
    let expected = nary_mr(&Sha256Hasher, &[peaks[0].clone(), mid]);
    assert_eq!(bag_peaks(&Sha256Hasher, &peaks, 2), expected);
}

#[test]
fn bag_shape_kary() {
    let shape = bag_shape(5, 3).unwrap();
    let expected = BagNode::Bag(vec![
        BagNode::Peak(0),
        BagNode::Peak(1),
        BagNode::Bag(vec![BagNode::Peak(2), BagNode::Peak(3), BagNode::Peak(4)]),
    ]);
    assert_eq!(shape, expected);
}

#[test]
fn skeleton_steps_are_well_formed() {
    for k in [2u64, 3, 5] {
        for tree_size in 1..=130u64 {
            for index in 0..tree_size {
                let sk = mountain_skeleton(k, tree_size, index).expect("valid position");
                for step in &sk {
                    assert!(step.sibling_count >= 1, "k={k} n={tree_size} i={index}");
                    assert!(step.position <= step.sibling_count);
                }
            }
        }
    }
}

#[test]
fn rejects_out_of_range() {
    assert_eq!(mountain_skeleton(1, 4, 0), None);
    assert_eq!(mountain_skeleton(257, 4, 0), None);
    assert_eq!(mountain_skeleton(2, 0, 0), None);
    assert_eq!(mountain_skeleton(2, 4, 4), None);
}

#[test]
fn prove_to_peak_then_bag_verifies() {
    for m in 1..=12usize {
        let ps = peaks(m);
        let root = bag_peaks(&Sha256Hasher, &ps, 2);
        for (f_idx, peak) in ps.iter().enumerate() {
            let path = bag_path(&ps, f_idx, &Sha256Hasher, 2);
            let sk = bag_skeleton(&bag_shape(m, 2).unwrap(), f_idx);
            assert_eq!(
                reconstruct_inclusion_root(&Sha256Hasher, peak, &sk, &path),
                Some(root.clone()),
                "m={m} f_idx={f_idx}: prove-to-peak+bag must verify"
            );
            let mut wrong = peak.clone();
            wrong[0] ^= 0xFF;
            assert_ne!(
                reconstruct_inclusion_root(&Sha256Hasher, &wrong, &sk, &path),
                Some(root.clone()),
                "m={m} f_idx={f_idx}: a forged peak must not verify"
            );
        }
    }
}

#[test]
fn a_formed_peak_is_permanent_across_append() {
    for m in 1..=12usize {
        let before = peaks(m);
        let after = peaks(m + 1);
        assert_eq!(&after[..m], &before[..], "m={m}: existing peaks rewritten");
    }
}

#[test]
fn a_witness_survives_an_append() {
    for m in 1..=12usize {
        let f_idx = 0;
        let ps_n = peaks(m);
        let ps_n1 = peaks(m + 1);
        assert_eq!(ps_n[f_idx], ps_n1[f_idx]);

        let root_n = bag_peaks(&Sha256Hasher, &ps_n, 2);
        let path_n = bag_path(&ps_n, f_idx, &Sha256Hasher, 2);
        let sk_n = bag_skeleton(&bag_shape(m, 2).unwrap(), f_idx);
        assert_eq!(
            reconstruct_inclusion_root(&Sha256Hasher, &ps_n[f_idx], &sk_n, &path_n),
            Some(root_n)
        );

        let root_n1 = bag_peaks(&Sha256Hasher, &ps_n1, 2);
        let path_n1 = bag_path(&ps_n1, f_idx, &Sha256Hasher, 2);
        let sk_n1 = bag_skeleton(&bag_shape(m + 1, 2).unwrap(), f_idx);
        assert_eq!(
            reconstruct_inclusion_root(&Sha256Hasher, &ps_n1[f_idx], &sk_n1, &path_n1),
            Some(root_n1),
            "m={m}: a witness for the oldest peak must survive an append"
        );
    }
}

#[test]
fn skeleton_of_a_five_leaf_binary_log() {
    // Frontier of 5 at k=2: (0, 2) and (4, 0); leaf 6 is out of range,
    // leaf 2 sits at digits (0, 1) in the first mountain, then the bag step.
    let sk = mountain_skeleton(2, 5, 2).unwrap();
    assert_eq!(
        sk,
        vec![
            SkeletonStep { position: 0, sibling_count: 1 },
            SkeletonStep { position: 1, sibling_count: 1 },
            SkeletonStep { position: 0, sibling_count: 1 },
        ]
    );
    let sk4 = mountain_skeleton(2, 5, 4).unwrap();
    assert_eq!(sk4, vec![SkeletonStep { position: 1, sibling_count: 1 }]);
}
