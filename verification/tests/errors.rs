use merkle_subs::{
    build_tree_from_records, compute_leaf, get_proof_for_user, verify_subscription, MerkleError,
    OzMerkleTree,
};

const ADDR1: &str = "0x1111111111111111111111111111111111111111";
const ADDR2: &str = "0x2222222222222222222222222222222222222222";

#[test]
fn empty_leaf_set_refused() {
    let leaves: Vec<[u8; 32]> = Vec::new();
    assert_eq!(
        OzMerkleTree::from_leaves(&leaves).unwrap_err(),
        MerkleError::EmptyLeafSet
    );
    let records: Vec<(String, i64)> = Vec::new();
    assert_eq!(
        build_tree_from_records(&records).unwrap_err(),
        MerkleError::EmptyLeafSet
    );
}

#[test]
fn invalid_hex_address_rejected() {
    assert_eq!(
        compute_leaf("0xzz11111111111111111111111111111111111111", 1).unwrap_err(),
        MerkleError::InvalidHexInput
    );
    // Odd number of digits is not decodable either.
    assert_eq!(
        compute_leaf("0x111", 1).unwrap_err(),
        MerkleError::InvalidHexInput
    );
}

#[test]
fn short_and_long_addresses_rejected() {
    assert_eq!(
        compute_leaf("0x1122", 1).unwrap_err(),
        MerkleError::InvalidAddressLength
    );
    assert_eq!(
        compute_leaf("0x111111111111111111111111111111111111111111", 1).unwrap_err(),
        MerkleError::InvalidAddressLength
    );
}

#[test]
fn bad_root_hex_rejected() {
    let leaf = compute_leaf(ADDR1, 1).unwrap();
    let tree = OzMerkleTree::from_leaves(&[leaf]).unwrap();
    let proof = tree.get_proof(&leaf).unwrap();
    assert_eq!(
        verify_subscription("not-hex", &proof, ADDR1, 1).unwrap_err(),
        MerkleError::InvalidHexInput
    );
    // Decodable, but not 32 bytes.
    assert_eq!(
        verify_subscription("deadbeef", &proof, ADDR1, 1).unwrap_err(),
        MerkleError::InvalidRootLength
    );
    // The root hex carries no 0x prefix internally; one is not stripped here.
    let prefixed = format!("0x{}", hex::encode(tree.root()));
    assert_eq!(
        verify_subscription(&prefixed, &proof, ADDR1, 1).unwrap_err(),
        MerkleError::InvalidHexInput
    );
}

#[test]
fn bad_user_address_in_verification() {
    let leaf = compute_leaf(ADDR1, 1).unwrap();
    let tree = OzMerkleTree::from_leaves(&[leaf]).unwrap();
    let proof = tree.get_proof(&leaf).unwrap();
    let root_hex = hex::encode(tree.root());
    assert_eq!(
        verify_subscription(&root_hex, &proof, "0x12", 1).unwrap_err(),
        MerkleError::InvalidAddressLength
    );
    assert_eq!(
        verify_subscription(&root_hex, &proof, "xyz", 1).unwrap_err(),
        MerkleError::InvalidHexInput
    );
}

#[test]
fn absent_leaf_has_no_proof() {
    let leaf1 = compute_leaf(ADDR1, 1000).unwrap();
    let tree = OzMerkleTree::from_leaves(&[leaf1]).unwrap();
    let other = compute_leaf(ADDR2, 2000).unwrap();
    assert!(tree.get_proof(&other).is_none());
}

#[test]
fn unknown_user_has_no_proof() {
    let subscribers: Vec<(String, i64)> = vec![(ADDR1.to_string(), 1000)];
    let (_, tree) = build_tree_from_records(&subscribers).unwrap();
    assert!(get_proof_for_user(&tree, &subscribers, ADDR2).is_none());
}

#[test]
fn stale_record_yields_no_proof() {
    // The tree was built before the record changed: the re-encoded leaf no
    // longer matches, which is reported as not-found rather than an error.
    let subscribers: Vec<(String, i64)> = vec![(ADDR1.to_string(), 1000)];
    let (_, tree) = build_tree_from_records(&subscribers).unwrap();
    let stale: Vec<(String, i64)> = vec![(ADDR1.to_string(), 1500)];
    assert!(get_proof_for_user(&tree, &stale, ADDR1).is_none());
}

#[test]
fn invalid_record_fails_build() {
    let records: Vec<(String, i64)> = vec![
        (ADDR1.to_string(), 1000),
        ("0xbad".to_string(), 2000),
    ];
    assert_eq!(
        build_tree_from_records(&records).unwrap_err(),
        MerkleError::InvalidHexInput
    );
    let records2: Vec<(String, i64)> = vec![("0x1122".to_string(), 1000)];
    assert_eq!(
        build_tree_from_records(&records2).unwrap_err(),
        MerkleError::InvalidAddressLength
    );
}

#[test]
fn error_descriptions_are_distinct() {
    let kinds = [
        MerkleError::InvalidAddressLength,
        MerkleError::EmptyLeafSet,
        MerkleError::LeafNotFound,
        MerkleError::InvalidHexInput,
        MerkleError::InvalidRootLength,
    ];
    for (i, a) in kinds.iter().enumerate() {
        assert!(!a.describe().is_empty());
        for (j, b) in kinds.iter().enumerate() {
            if i != j {
                assert_ne!(a.describe(), b.describe());
            }
        }
    }
}
