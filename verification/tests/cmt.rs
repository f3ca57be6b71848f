use merkle_spine::cmt::{Cmt, Config, Error};
use merkle_spine::mr::{Subtree, evaluate};
use merkle_spine::sha::Sha256Hasher;
use merkle_spine::topology::frontier_for_size;

const ALG: u64 = 0;
const K: u64 = 2;

fn tree_with(payloads: &[&[u8]]) -> Cmt<Sha256Hasher> {
    let mut t = Cmt::new(Config { arity: K }).expect("valid arity");
    t.register_algorithm(ALG, Sha256Hasher).expect("fresh alg");
    for (i, p) in payloads.iter().enumerate() {
        t.set(i as u64, p.to_vec(), Vec::new()).expect("dense set");
    }
    t
}

#[test]
fn empty_tree_has_no_root() {
    let t: Cmt<Sha256Hasher> = Cmt::new(Config::default()).unwrap();
    assert!(t.is_empty());
    assert_eq!(t.root(ALG), None);
}

#[test]
fn rejects_out_of_range_arity() {
    assert_eq!(Cmt::<Sha256Hasher>::new(Config { arity: 1 }).unwrap_err(), Error::InvalidArity(1));
    assert_eq!(Cmt::<Sha256Hasher>::new(Config { arity: 257 }).unwrap_err(), Error::InvalidArity(257));
}

#[test]
fn set_get_round_trips_and_overwrites() {
    let mut t = tree_with(&[b"a", b"b", b"c"]);
    assert_eq!(t.get(1), Some(b"b".as_slice()));
    t.set(1, b"B".to_vec(), Vec::new()).unwrap();
    assert_eq!(t.get(1), Some(b"B".as_slice()));
    assert_eq!(t.len(), 3);
}

#[test]
fn set_rejects_a_gap() {
    let mut t = tree_with(&[b"a"]);
    assert_eq!(t.set(5, b"x".to_vec(), Vec::new()).unwrap_err(), Error::IndexGap { index: 5, len: 1 });
}

#[test]
fn metadata_is_carried_verbatim_and_uninterpreted() {
    let mut t = tree_with(&[b"a"]);
    let meta = vec![0xDE, 0xAD, 0xBE, 0xEF];
    t.set(0, b"a".to_vec(), meta.clone()).unwrap();
    assert_eq!(t.metadata(0), Some(meta.as_slice()));
    let r_with_meta = t.root(ALG).unwrap();
    let mut t2 = tree_with(&[b"a"]);
    t2.set(0, b"a".to_vec(), vec![0x00]).unwrap();
    assert_eq!(t2.root(ALG).unwrap(), r_with_meta);
}

fn perfect(leaves: &[Vec<u8>], left: u64, height: u32) -> Subtree {
    if height == 0 {
        return Subtree::Leaf(leaves[left as usize].clone());
    }
    let span = K.pow(height - 1);
    let children = (0..K).map(|c| perfect(leaves, left + c * span, height - 1)).collect();
    Subtree::Node(children)
}

fn spine_root(payloads: &[Vec<u8>]) -> Vec<u8> {
    let leaves: Vec<Vec<u8>> = payloads.to_vec();
    let coords = frontier_for_size(payloads.len() as u64, K);
    let mut frontier: Vec<Subtree> = coords.iter().map(|&(left, height)| perfect(&leaves, left, height)).collect();
    let k = K as usize;
    while frontier.len() > k {
        let split = frontier.len() - k;
        let group = frontier.split_off(split);
        frontier.push(Subtree::Node(group));
    }
    let shape = if frontier.len() == 1 { frontier.pop().unwrap() } else { Subtree::Node(frontier) };
    evaluate(&Sha256Hasher, &shape)
}

#[test]
fn root_matches_spine_evaluate() {
    for size in 1u64..=20 {
        let payloads: Vec<Vec<u8>> = (0..size).map(|i| format!("p{i}").into_bytes()).collect();
        let refs: Vec<&[u8]> = payloads.iter().map(Vec::as_slice).collect();
        let t = tree_with(&refs);
        let expected = spine_root(&payloads);
        assert_eq!(t.root(ALG).unwrap(), expected, "size={size}");
    }
}

#[test]
fn duplicate_and_unknown_algorithms() {
    let mut t = tree_with(&[b"a", b"b"]);
    assert_eq!(t.register_algorithm(ALG, Sha256Hasher).unwrap_err(), Error::DuplicateAlgorithm(ALG));
    assert_eq!(t.root(7), None);
    assert_eq!(t.get(2), None);
    assert_eq!(t.metadata(2), None);
}
