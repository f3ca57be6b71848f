use merkle_spine::hasher::Hasher;
use merkle_spine::presets::{PrefixedHasher, config};
use merkle_spine::sha::{RevSha256Hasher, Sha256Hasher, TaggedSha256Hasher};
use sha2::{Digest, Sha256};
use merkle_spine::storage::MemoryStorage;

#[test]
fn lib_preset_is_binary() {
    assert_eq!(config().arity, 2);
}

#[test]
fn prefixed_hasher_domain_separation() {
    let h = PrefixedHasher::new(Sha256Hasher);
    let data = b"abc";
    let leaf_hash = h.leaf(data);
    let node_hash = h.node(&[data.to_vec()]);
    let mut expected_leaf = vec![0x00u8];
    expected_leaf.extend_from_slice(data);
    assert_eq!(leaf_hash, Sha256::digest(&expected_leaf).to_vec());
    let mut expected_node = vec![0x01u8];
    expected_node.extend_from_slice(data);
    assert_eq!(node_hash, Sha256::digest(&expected_node).to_vec());
    assert_ne!(leaf_hash, node_hash);
}

#[test]
fn prefixed_hasher_empty_and_null() {
    let h = PrefixedHasher::new(Sha256Hasher);
    assert_eq!(h.empty(), Sha256::digest(b"").to_vec());
    assert_eq!(h.null(), Sha256::digest(b"\x02null").to_vec());
    assert_eq!(h.hash(b"xyz"), Sha256::digest(b"xyz").to_vec());
}

#[test]
fn sha256_hasher_node_concatenates() {
    let a = Sha256::digest(b"a").to_vec();
    let b = Sha256::digest(b"b").to_vec();
    let node = Sha256Hasher.node(&[a.clone(), b.clone()]);
    let mut h = Sha256::new();
    h.update(&a);
    h.update(&b);
    assert_eq!(node, h.finalize().to_vec());
    assert_eq!(Sha256Hasher.leaf(b"hello"), Sha256::digest(b"hello").to_vec());
    assert_eq!(Sha256Hasher.null(), Sha256::digest([0x02]).to_vec());
}

#[test]
fn tagged_hasher_prefixes_the_tag() {
    let mut h = Sha256::new();
    h.update(b"difftest/tagged");
    h.update(b"payload");
    assert_eq!(TaggedSha256Hasher.leaf(b"payload"), h.finalize().to_vec());
    assert_ne!(TaggedSha256Hasher.leaf(b"payload"), Sha256Hasher.leaf(b"payload"));
}

#[test]
fn reversed_hasher_reverses_the_digest() {
    let mut expected = Sha256::digest(b"payload").to_vec();
    expected.reverse();
    assert_eq!(RevSha256Hasher.leaf(b"payload"), expected);
    assert_eq!(RevSha256Hasher.empty().len(), 32);
}

#[test]
fn a_preset_log_hashes_with_the_prefixed_adaptor() {
    let mut log = merkle_spine::presets::new(MemoryStorage::new(), Sha256Hasher).unwrap();
    log.append_leaf(b"hello").unwrap();
    let mut pre = vec![0u8];
    pre.extend_from_slice(b"hello");
    assert_eq!(log.root(), Sha256::digest(&pre).to_vec());
    merkle_spine::presets::add_prefixed_algorithm(&mut log, 1, Sha256Hasher).unwrap();
    assert!(matches!(
        merkle_spine::presets::add_prefixed_algorithm(&mut log, 1, Sha256Hasher),
        Err(merkle_spine::log::Error::DuplicateAlgorithm(1))
    ));
}
