use indexed_merkle_tree::distribution::DistributionEntry;
use indexed_merkle_tree::errors::MerkleError;
use indexed_merkle_tree::hasher::Hasher;
use indexed_merkle_tree::hasher::PoseidonHasher;
use indexed_merkle_tree::node::round_trip;
use indexed_merkle_tree::node::SerializableData;
use indexed_merkle_tree::tree::IndexedMerkleTree;

#[test]
fn entry_encoding_is_length_prefixed() {
    let entry = DistributionEntry { address: "alice".to_string(), amount: "100".to_string() };
    let bytes = entry.to_bytes();
    let mut expected: Vec<u8> = Vec::new();
    expected.extend_from_slice(&5u32.to_le_bytes());
    expected.extend_from_slice(b"alice");
    expected.extend_from_slice(&3u32.to_le_bytes());
    expected.extend_from_slice(b"100");
    assert_eq!(bytes, expected);
}

#[test]
fn entry_round_trips() {
    let entry = DistributionEntry {
        address: "0xabc123".to_string(),
        amount: "250000000000".to_string(),
    };
    let back = DistributionEntry::from_bytes(entry.to_bytes());
    assert_eq!(back.address, entry.address);
    assert_eq!(back.amount, entry.amount);
}

#[test]
fn entry_round_trips_through_library_helper() {
    let entry = DistributionEntry { address: "bob".to_string(), amount: "0".to_string() };
    let back = round_trip(&entry);
    assert_eq!(back.address, entry.address);
    assert_eq!(back.amount, entry.amount);
}

#[test]
fn entry_round_trips_empty_fields() {
    let entry = DistributionEntry { address: String::new(), amount: String::new() };
    let back = DistributionEntry::from_bytes(entry.to_bytes());
    assert_eq!(back.address, "");
    assert_eq!(back.amount, "");
    assert_eq!(entry.to_bytes().len(), 8);
}

#[test]
fn entry_key_hashes_the_address() {
    let entry = DistributionEntry { address: "alice".to_string(), amount: "100".to_string() };
    let direct = PoseidonHasher.hash_leaf("alice".as_bytes());
    assert_eq!(entry.key(), direct);
    let other = DistributionEntry { address: "alice".to_string(), amount: "999".to_string() };
    assert_eq!(other.key(), entry.key());
}

#[test]
fn entries_build_a_tree_with_proofs() {
    let data = vec![
        DistributionEntry { address: "alice".to_string(), amount: "100".to_string() },
        DistributionEntry { address: "bob".to_string(), amount: "200".to_string() },
        DistributionEntry { address: "carol".to_string(), amount: "300".to_string() },
    ];
    let tree =
        IndexedMerkleTree::<DistributionEntry, PoseidonHasher>::new(data, PoseidonHasher).unwrap();
    assert_eq!(tree.leaves[0].len(), 4);
    assert_eq!(tree.height, 2);
    let key = DistributionEntry { address: "bob".to_string(), amount: String::new() }.key();
    let proof = tree.get_proof(key).unwrap();
    assert_eq!(proof.data.address, "bob");
    assert_eq!(proof.data.amount, "200");
    assert_eq!(proof.index, 1);
    assert_eq!(tree.verify_proof(proof).unwrap(), true);
}

#[test]
fn duplicate_addresses_rejected() {
    let data = vec![
        DistributionEntry { address: "alice".to_string(), amount: "100".to_string() },
        DistributionEntry { address: "alice".to_string(), amount: "200".to_string() },
        DistributionEntry { address: "bob".to_string(), amount: "300".to_string() },
    ];
    let err = IndexedMerkleTree::<DistributionEntry, PoseidonHasher>::new(data, PoseidonHasher)
        .unwrap_err();
    assert!(matches!(err, MerkleError::InvalidKey { .. }));
}
