use indexed_merkle_tree::hasher::Hasher;
use indexed_merkle_tree::hasher::PoseidonHasher;
use indexed_merkle_tree::merkle_proof::MerkleProof;
use indexed_merkle_tree::distribution::DistributionEntry;

#[test]
fn internal_hash_matches_known_vector() {
    let hash = PoseidonHasher.hash_internal(&[1u8; 32], &[2u8; 32]);
    let expected: [u8; 32] = [
        13, 84, 225, 147, 143, 138, 140, 28, 125, 235, 94, 3, 85, 242, 99, 25, 32, 123, 132, 254,
        156, 162, 206, 27, 38, 231, 53, 200, 41, 130, 25, 144,
    ];
    assert_eq!(hash, expected);
}

#[test]
fn leaf_hash_is_deterministic_and_spreading() {
    let h1 = PoseidonHasher.hash_leaf(b"hello");
    let h2 = PoseidonHasher.hash_leaf(b"hello");
    let h3 = PoseidonHasher.hash_leaf(b"hellp");
    assert_eq!(h1, h2);
    assert_ne!(h1, h3);
    assert_ne!(&h1[..5], b"hello");
}

#[test]
fn zero_hash_is_all_zero() {
    assert_eq!(<PoseidonHasher as Hasher>::zero(), [0u8; 32]);
}

#[test]
fn hash_domain_check_follows_field_order() {
    let modulus: [u8; 32] = [
        0x30, 0x64, 0x4e, 0x72, 0xe1, 0x31, 0xa0, 0x29, 0xb8, 0x50, 0x45, 0xb6, 0x81, 0x81, 0x58,
        0x5d, 0x28, 0x33, 0xe8, 0x48, 0x79, 0xb9, 0x70, 0x91, 0x43, 0xe1, 0xf5, 0x93, 0xf0, 0x00,
        0x00, 0x01,
    ];
    assert!(PoseidonHasher::hash_in_domain(&[0u8; 32]));
    let mut below = modulus;
    below[31] = 0x00;
    assert!(PoseidonHasher::hash_in_domain(&below));
    assert!(!PoseidonHasher::hash_in_domain(&modulus));
    assert!(!PoseidonHasher::hash_in_domain(&[0xffu8; 32]));
    let real = PoseidonHasher.hash_leaf(b"hello");
    assert!(PoseidonHasher::hash_in_domain(&real));
}

#[test]
fn proof_renders_as_lowercase_hex() {
    let proof: MerkleProof<DistributionEntry> = MerkleProof {
        data: DistributionEntry { address: "alice".to_string(), amount: "1".to_string() },
        index: 0,
        proof: vec![[0u8; 32], [0xffu8; 32]],
        root_hash: [1u8; 32],
    };
    let rendered = proof.proof_hex();
    assert_eq!(rendered.len(), 2);
    assert_eq!(rendered[0], "0".repeat(64));
    assert_eq!(rendered[1], "f".repeat(64));
    let root = proof.root_hash_hex();
    assert_eq!(root, "01".repeat(32));
}
