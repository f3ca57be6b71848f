use merkle_spine::filling::{FillError, RunExtent, Snapshot, fill};
use merkle_spine::log::{NaryMerkleLog, TreeConfig};
use merkle_spine::sha::Sha256Hasher;
use merkle_spine::storage::MemoryStorage;
use merkle_spine::topology::frontier_for_size;

fn leaves(n: u64) -> Vec<Vec<u8>> {
    (0..n).map(|i| format!("leaf {}", i).into_bytes()).collect()
}

fn sealed(n: u64, k: u64) -> Snapshot {
    let extents = frontier_for_size(n, k)
        .into_iter()
        .filter(|&(_, h)| h >= 1)
        .map(|(l, h)| RunExtent::new(l, h))
        .collect();
    Snapshot::new(n, k, extents)
}

#[test]
fn a_fill_reproduces_a_gapless_build() {
    for k in 2..=4u64 {
        for n in 1..=20u64 {
            let data = leaves(n);
            let mut log =
                NaryMerkleLog::new(MemoryStorage::new(), Sha256Hasher, TreeConfig { arity: k })
                    .unwrap();
            for d in &data {
                log.append_leaf(d).unwrap();
            }
            let filled = fill(&sealed(n, k), 7, &Sha256Hasher, &data, Some(3)).unwrap();
            assert_eq!(filled.root(), log.root().as_slice(), "k={} n={}", k, n);
            assert_eq!(filled.alg_id(), 7);
            assert_eq!(filled.tree_size(), n);
            assert_eq!(filled.pruned(), Some(3));
        }
    }
}

#[test]
fn a_fill_needs_every_sealed_leaf() {
    let data = leaves(4);
    assert_eq!(
        fill(&sealed(5, 2), 0, &Sha256Hasher, &data, None),
        Err(FillError::LeafCountMismatch { committed: 5, supplied: 4 })
    );
}

#[test]
fn a_fill_cannot_prune_its_own_algorithm() {
    let data = leaves(5);
    assert_eq!(
        fill(&sealed(5, 2), 4, &Sha256Hasher, &data, Some(4)),
        Err(FillError::PruneTargetIsFillTarget(4))
    );
}

#[test]
fn extents_that_miss_part_of_the_size_are_refused() {
    let data = leaves(7);
    // the frontier of 7 at arity 2 is (0,2), (4,1), (6,0); drop the middle extent
    let snapshot = Snapshot::new(7, 2, vec![RunExtent::new(0, 2)]);
    assert_eq!(
        fill(&snapshot, 0, &Sha256Hasher, &data, None),
        Err(FillError::ExtentsDoNotCoverSize { tree_size: 7, covered: 5 })
    );
}

#[test]
fn run_extent_spans_its_subtree() {
    let e = RunExtent::new(8, 3);
    assert_eq!(e.left(), 8);
    assert_eq!(e.height(), 3);
    assert_eq!(e.span(2), 8);
    assert_eq!(e.span(3), 27);
}
