use merkle_spine::hasher::Hasher;
use merkle_spine::mr::nary_mr;
use merkle_spine::sha::Sha256Hasher;
use merkle_spine::shape::rebalanced_bag;
use merkle_spine::mountain::SkeletonStep;
use merkle_spine::shape::{ShapeNode, build, perfect, rebalanced_skeleton};

fn collect_leaves(node: &ShapeNode, out: &mut Vec<u64>) {
    match node {
        ShapeNode::Leaf(p) => out.push(*p),
        ShapeNode::Inner(children) => {
            for c in children {
                collect_leaves(c, out);
            }
        },
    }
}

#[test]
fn rejects_undefined_shapes() {
    assert_eq!(build(0, 2), None);
    assert_eq!(build(4, 1), None);
    assert_eq!(build(4, 257), None);
}

#[test]
fn singleton_is_a_lone_leaf() {
    assert_eq!(build(1, 2), Some(ShapeNode::Leaf(0)));
}

#[test]
fn covers_every_position_in_order() {
    for k in [2u64, 3, 5] {
        for size in 1..=64u64 {
            let mut seen = Vec::new();
            collect_leaves(&build(size, k).expect("defined"), &mut seen);
            let expected: Vec<u64> = (0..size).collect();
            assert_eq!(seen, expected, "k={k} size={size}");
        }
    }
}

#[test]
fn perfect_shape_of_height_two() {
    let p = perfect(4, 2, 2);
    assert_eq!(
        p,
        ShapeNode::Inner(vec![
            ShapeNode::Inner(vec![ShapeNode::Leaf(4), ShapeNode::Leaf(5)]),
            ShapeNode::Inner(vec![ShapeNode::Leaf(6), ShapeNode::Leaf(7)]),
        ])
    );
}

#[test]
fn three_leaves_fold_into_one_root_node() {
    // Frontier of 3 at k=2 is (0, 1), (2, 0): two parts fold into one node.
    assert_eq!(
        build(3, 2),
        Some(ShapeNode::Inner(vec![
            ShapeNode::Inner(vec![ShapeNode::Leaf(0), ShapeNode::Leaf(1)]),
            ShapeNode::Leaf(2),
        ]))
    );
}

#[test]
fn rebalanced_bag_folds_the_rightmost_k() {
    let h = Sha256Hasher;
    assert_eq!(rebalanced_bag(&h, &[], 2), h.empty());
    let a = h.leaf(b"a");
    let b = h.leaf(b"b");
    let c = h.leaf(b"c");
    let one = rebalanced_bag(&h, &[a.clone()], 2);
    assert_eq!(one, a);
    let bc = nary_mr(&h, &[b.clone(), c.clone()]);
    let expected = nary_mr(&h, &[a.clone(), bc]);
    assert_eq!(rebalanced_bag(&h, &[a.clone(), b.clone(), c.clone()], 2), expected);
    assert_eq!(rebalanced_bag(&h, &[a.clone(), b.clone(), c.clone()], 3), nary_mr(&h, &[a, b, c]));
}

fn leftmost_of(node: &ShapeNode) -> u64 {
    match node {
        ShapeNode::Leaf(p) => *p,
        ShapeNode::Inner(children) => leftmost_of(&children[0]),
    }
}

fn rightmost_of(node: &ShapeNode) -> u64 {
    match node {
        ShapeNode::Leaf(p) => *p,
        ShapeNode::Inner(children) => rightmost_of(children.last().unwrap()),
    }
}

fn walk_down(node: &ShapeNode, index: u64, out: &mut Vec<(usize, usize)>) {
    if let ShapeNode::Inner(children) = node {
        let position = children
            .iter()
            .position(|c| leftmost_of(c) <= index && index <= rightmost_of(c))
            .unwrap();
        out.push((position, children.len() - 1));
        walk_down(&children[position], index, out);
    }
}

fn pairs(steps: &[SkeletonStep]) -> Vec<(usize, usize)> {
    steps.iter().map(|s| (s.position, s.sibling_count)).collect()
}

#[test]
fn rebalanced_skeleton_exact_values() {
    assert_eq!(pairs(&rebalanced_skeleton(5, 2, 4).unwrap()), vec![(1, 1)]);
    assert_eq!(pairs(&rebalanced_skeleton(5, 2, 1).unwrap()), vec![(1, 1), (0, 1), (0, 1)]);
    assert_eq!(pairs(&rebalanced_skeleton(7, 2, 6).unwrap()), vec![(1, 1), (1, 1)]);
    assert_eq!(pairs(&rebalanced_skeleton(7, 2, 5).unwrap()), vec![(1, 1), (0, 1), (1, 1)]);
    assert_eq!(pairs(&rebalanced_skeleton(7, 2, 0).unwrap()), vec![(0, 1), (0, 1), (0, 1)]);
    assert_eq!(pairs(&rebalanced_skeleton(1, 2, 0).unwrap()), Vec::<(usize, usize)>::new());
}

#[test]
fn rebalanced_skeleton_rejects_undefined() {
    assert!(rebalanced_skeleton(0, 2, 0).is_none());
    assert!(rebalanced_skeleton(4, 1, 0).is_none());
    assert!(rebalanced_skeleton(4, 257, 0).is_none());
    assert!(rebalanced_skeleton(4, 2, 4).is_none());
}

#[test]
fn rebalanced_skeleton_follows_the_built_shape() {
    for k in 2u64..=5 {
        for size in 1u64..=40 {
            let shape = build(size, k).unwrap();
            for index in 0..size {
                let mut down = Vec::new();
                walk_down(&shape, index, &mut down);
                down.reverse();
                let sk = rebalanced_skeleton(size, k, index).unwrap();
                assert_eq!(pairs(&sk), down, "k={k} size={size} index={index}");
            }
        }
    }
}

#[test]
fn three_leaves_at_arity_two_group_the_first_pair() {
    assert_eq!(
        build(3, 2),
        Some(ShapeNode::Inner(vec![
            ShapeNode::Inner(vec![ShapeNode::Leaf(0), ShapeNode::Leaf(1)]),
            ShapeNode::Leaf(2)
        ]))
    );
}

fn fanout_within(node: &ShapeNode, k: usize) -> bool {
    match node {
        ShapeNode::Leaf(_) => true,
        ShapeNode::Inner(ch) => ch.len() >= 2 && ch.len() <= k && ch.iter().all(|c| fanout_within(c, k)),
    }
}

#[test]
fn built_inner_nodes_have_two_to_k_children() {
    for k in 2u64..=5 {
        for size in 1u64..=40 {
            assert!(fanout_within(&build(size, k).unwrap(), k as usize), "k={k} size={size}");
        }
    }
}
