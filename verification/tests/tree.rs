use indexed_merkle_tree::distribution::DistributionEntry;
use indexed_merkle_tree::errors::MerkleError;
use indexed_merkle_tree::hasher::Hasher;
use indexed_merkle_tree::hasher::PoseidonHasher;
use indexed_merkle_tree::node::SerializableData;
use indexed_merkle_tree::tree::IndexedMerkleTree;

fn entry(name: &str) -> DistributionEntry {
    DistributionEntry { address: name.to_string(), amount: "0".to_string() }
}

fn words(names: &[&str]) -> Vec<DistributionEntry> {
    names.iter().map(|n| entry(n)).collect()
}

#[test]
fn test_tree_verifies_proof() {
    let data: Vec<DistributionEntry> = vec![
        entry("hello"),
        entry("world"),
        entry("foo"),
        entry("bar"),
        entry("baz"),
    ];

    let tree = IndexedMerkleTree::<DistributionEntry, PoseidonHasher>::new(data, PoseidonHasher).unwrap();
    let proof = tree.get_proof(entry("hello").key()).unwrap();
    tree.verify_proof(proof).unwrap();
}

#[test]
fn test_tree_rejects_invalid_proof() {
    let data: Vec<DistributionEntry> = vec![
        entry("hello"),
        entry("world"),
        entry("foo"),
        entry("bar"),
        entry("baz"),
    ];

    let tree = IndexedMerkleTree::<DistributionEntry, PoseidonHasher>::new(data, PoseidonHasher).unwrap();
    let mut proof = tree.get_proof(entry("hello").key()).unwrap();
    proof.proof[0] = PoseidonHasher.hash_leaf(entry("random").address.as_bytes());
    tree.verify_proof(proof).expect_err("Invalid proof");
}

#[test]
fn padded_scenario_five_records() {
    let tree =
        IndexedMerkleTree::<DistributionEntry, PoseidonHasher>::new(
            words(&["hello", "world", "foo", "bar", "baz"]),
            PoseidonHasher,
        )
        .unwrap();
    assert_eq!(tree.leaves[0].len(), 8);
    assert_eq!(tree.height, 3);
    let proof = tree.get_proof(entry("hello").key()).unwrap();
    assert_eq!(proof.proof.len(), 3);
    assert_eq!(proof.index, 0);
    assert_eq!(proof.root_hash, tree.root.hash);
    assert_eq!(tree.verify_proof(proof.clone()).unwrap(), true);
    let mut tampered = proof;
    tampered.proof[0] = PoseidonHasher.hash_leaf("random".as_bytes());
    let err = tree.verify_proof(tampered).unwrap_err();
    assert!(matches!(err, MerkleError::InvalidRootHash { .. }));
}

#[test]
fn padding_sizes() {
    let cases: [(usize, usize, usize); 4] = [(3, 4, 2), (5, 8, 3), (6, 8, 3), (7, 8, 3)];
    let pool = ["a", "b", "c", "d", "e", "f", "g"];
    for (n, padded, height) in cases {
        let tree =
            IndexedMerkleTree::<DistributionEntry, PoseidonHasher>::new(words(&pool[..n]), PoseidonHasher)
                .unwrap();
        assert_eq!(tree.leaves[0].len(), padded);
        assert_eq!(tree.height, height);
        for level in 0..=height {
            assert_eq!(tree.leaves[level].len(), padded >> level);
        }
        assert_eq!(tree.indexer.len(), n);
    }
}

#[test]
fn too_few_records_rejected() {
    let empty: Vec<DistributionEntry> = Vec::new();
    let err = IndexedMerkleTree::<DistributionEntry, PoseidonHasher>::new(empty, PoseidonHasher)
        .unwrap_err();
    assert!(matches!(err, MerkleError::InvalidDataLength { len: 0 }));
    let one = words(&["solo"]);
    let err = IndexedMerkleTree::<DistributionEntry, PoseidonHasher>::new(one, PoseidonHasher).unwrap_err();
    assert!(matches!(err, MerkleError::InvalidDataLength { len: 1 }));
}

#[test]
fn unknown_key_rejected() {
    let tree =
        IndexedMerkleTree::<DistributionEntry, PoseidonHasher>::new(
            words(&["alice", "bob"]),
            PoseidonHasher,
        )
        .unwrap();
    let missing = entry("charlie").key();
    let err = tree.get_proof(missing).unwrap_err();
    assert!(matches!(err, MerkleError::InvalidKey { key } if key == missing));
}

#[test]
fn duplicate_key_rejected() {
    let data = words(&["alice", "bob", "alice"]);
    let dup = entry("alice").key();
    let err = IndexedMerkleTree::<DistributionEntry, PoseidonHasher>::new(data, PoseidonHasher)
        .unwrap_err();
    assert!(matches!(err, MerkleError::InvalidKey { key } if key == dup));
}

#[test]
fn same_records_same_root() {
    let t1 = IndexedMerkleTree::<DistributionEntry, PoseidonHasher>::new(
        words(&["hello", "world", "foo"]),
        PoseidonHasher,
    )
    .unwrap();
    let t2 = IndexedMerkleTree::<DistributionEntry, PoseidonHasher>::new(
        words(&["hello", "world", "foo"]),
        PoseidonHasher,
    )
    .unwrap();
    assert_eq!(t1.root.hash, t2.root.hash);
    let t3 = IndexedMerkleTree::<DistributionEntry, PoseidonHasher>::new(
        words(&["world", "hello", "foo"]),
        PoseidonHasher,
    )
    .unwrap();
    assert_ne!(t1.root.hash, t3.root.hash);
}

#[test]
fn every_record_proves_inclusion() {
    let names = ["hello", "world", "foo", "bar", "baz"];
    let tree = IndexedMerkleTree::<DistributionEntry, PoseidonHasher>::new(words(&names), PoseidonHasher)
        .unwrap();
    for name in names {
        let proof = tree.get_proof(entry(name).key()).unwrap();
        assert_eq!(tree.verify_proof(proof).unwrap(), true);
    }
}

#[test]
fn stale_root_rejected() {
    let tree =
        IndexedMerkleTree::<DistributionEntry, PoseidonHasher>::new(
            words(&["hello", "world"]),
            PoseidonHasher,
        )
        .unwrap();
    let mut proof = tree.get_proof(entry("hello").key()).unwrap();
    proof.root_hash = [7u8; 32];
    let err = tree.verify_proof(proof).unwrap_err();
    match err {
        MerkleError::InvalidRootHash { exp, act } => {
            assert_eq!(exp, [7u8; 32]);
            assert_ne!(act, [7u8; 32]);
        }
        other => panic!("unexpected error {:?}", other),
    }
}

#[test]
fn corrupted_tree_reports_node_not_found() {
    let mut tree =
        IndexedMerkleTree::<DistributionEntry, PoseidonHasher>::new(
            words(&["hello", "world"]),
            PoseidonHasher,
        )
        .unwrap();
    let key = entry("hello").key();
    tree.leaves.clear();
    let err = tree.get_proof(key).unwrap_err();
    assert!(matches!(err, MerkleError::NodeNotFound { level: 0, index: 0 }));
}
