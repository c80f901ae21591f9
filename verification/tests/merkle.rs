use merkle_subs::{
    build_tree_from_records, compute_leaf, get_proof_for_user, hash_pair, verify_subscription,
    OzMerkleTree,
};

const ADDR1: &str = "0x1111111111111111111111111111111111111111";
const ADDR2: &str = "0x2222222222222222222222222222222222222222";
const ADDR3: &str = "0x3333333333333333333333333333333333333333";

// Digests computed independently with a reference Keccak-256.
const LEAF1_HEX: &str = "f62c10519787ef50d0b8b94ab8a951f39f74c5768c245b60a8c8b2a4880bb239";
const LEAF2_HEX: &str = "bef16705905aff17a0b71e18019dfe4de2ba99880a95fe606a71035e2c12d6b8";
const LEAF3_HEX: &str = "3d5e3c23efa551be80627fb3dfb7a8f8d04253e096d3793fe9ebbc10e279c4ef";
const ROOT2_HEX: &str = "ec2132c71f58781e50a3f842aa2c3b7d3b1671d49963989a583c30432890a138";
const ROOT3_HEX: &str = "bf7a2fa1d3bf64e491645923d3913c3f992fc89fca6460494672d9c58e4db85b";

fn from_hex32(s: &str) -> [u8; 32] {
    let v = hex::decode(s).unwrap();
    let mut out = [0u8; 32];
    out.copy_from_slice(&v);
    out
}

#[test]
fn leaf_encoding_known_vectors() {
    assert_eq!(compute_leaf(ADDR1, 1000).unwrap(), from_hex32(LEAF1_HEX));
    assert_eq!(compute_leaf(ADDR2, 2000).unwrap(), from_hex32(LEAF2_HEX));
    assert_eq!(compute_leaf(ADDR3, 3000).unwrap(), from_hex32(LEAF3_HEX));
}

#[test]
fn leaf_encoding_prefix_optional() {
    let with = compute_leaf(ADDR1, 1000).unwrap();
    let without = compute_leaf("1111111111111111111111111111111111111111", 1000).unwrap();
    assert_eq!(with, without);
}

#[test]
fn leaf_encoding_uppercase_hex_accepted() {
    let lower = compute_leaf("0xabcdefabcdefabcdefabcdefabcdefabcdefabcd", 7).unwrap();
    let upper = compute_leaf("0xABCDEFABCDEFABCDEFABCDEFABCDEFABCDEFABCD", 7).unwrap();
    assert_eq!(lower, upper);
}

#[test]
fn leaf_encoding_negative_expiration_distinct() {
    let neg = compute_leaf(ADDR1, -1).unwrap();
    let pos = compute_leaf(ADDR1, 1).unwrap();
    let zero = compute_leaf(ADDR1, 0).unwrap();
    assert_ne!(neg, pos);
    assert_ne!(neg, zero);
    assert_ne!(pos, zero);
}

#[test]
fn two_record_scenario() {
    let leaf1 = compute_leaf(ADDR1, 1000).unwrap();
    let leaf2 = compute_leaf(ADDR2, 2000).unwrap();
    let tree = OzMerkleTree::from_leaves(&[leaf1, leaf2]).unwrap();
    let root = tree.root();
    assert_eq!(hex::encode(root), ROOT2_HEX);

    // Each proof is a single element: the other leaf.
    let proof1 = tree.get_proof(&leaf1).unwrap();
    let proof2 = tree.get_proof(&leaf2).unwrap();
    assert_eq!(proof1, vec![leaf2]);
    assert_eq!(proof2, vec![leaf1]);

    assert!(OzMerkleTree::verify(&root, &proof1, &leaf1));
    assert!(OzMerkleTree::verify(&root, &proof2, &leaf2));

    // Altering either expiration before re-encoding must fail.
    let tampered1 = compute_leaf(ADDR1, 1001).unwrap();
    let tampered2 = compute_leaf(ADDR2, 1999).unwrap();
    assert!(!OzMerkleTree::verify(&root, &proof1, &tampered1));
    assert!(!OzMerkleTree::verify(&root, &proof2, &tampered2));
}

#[test]
fn two_record_root_is_sorted_pair_hash() {
    let leaf1 = compute_leaf(ADDR1, 1000).unwrap();
    let leaf2 = compute_leaf(ADDR2, 2000).unwrap();
    let tree = OzMerkleTree::from_leaves(&[leaf1, leaf2]).unwrap();
    assert_eq!(tree.root(), hash_pair(leaf1, leaf2));
}

#[test]
fn three_record_promotion() {
    let leaf1 = compute_leaf(ADDR1, 1000).unwrap();
    let leaf2 = compute_leaf(ADDR2, 2000).unwrap();
    let leaf3 = compute_leaf(ADDR3, 3000).unwrap();
    let tree = OzMerkleTree::from_leaves(&[leaf1, leaf2, leaf3]).unwrap();
    assert_eq!(hex::encode(tree.root()), ROOT3_HEX);

    let mut sorted = vec![leaf1, leaf2, leaf3];
    sorted.sort();
    // The first two sorted leaves are hashed; the third is promoted, so its
    // proof is one entry shorter.
    let expected_root = hash_pair(hash_pair(sorted[0], sorted[1]), sorted[2]);
    assert_eq!(tree.root(), expected_root);

    let proof_first = tree.get_proof(&sorted[0]).unwrap();
    let proof_second = tree.get_proof(&sorted[1]).unwrap();
    let proof_promoted = tree.get_proof(&sorted[2]).unwrap();
    assert_eq!(proof_first.len(), 2);
    assert_eq!(proof_second.len(), 2);
    assert_eq!(proof_promoted.len(), 1);
    assert_eq!(proof_first, vec![sorted[1], sorted[2]]);
    assert_eq!(proof_promoted, vec![hash_pair(sorted[0], sorted[1])]);

    for leaf in [leaf1, leaf2, leaf3] {
        let p = tree.get_proof(&leaf).unwrap();
        assert!(OzMerkleTree::verify(&tree.root(), &p, &leaf));
    }
}

#[test]
fn single_leaf_tree() {
    let leaf = compute_leaf(ADDR1, 42).unwrap();
    let tree = OzMerkleTree::from_leaves(&[leaf]).unwrap();
    assert_eq!(tree.root(), leaf);
    let proof = tree.get_proof(&leaf).unwrap();
    assert!(proof.is_empty());
    assert!(OzMerkleTree::verify(&tree.root(), &proof, &leaf));
}

#[test]
fn order_independence() {
    let leaf1 = compute_leaf(ADDR1, 1000).unwrap();
    let leaf2 = compute_leaf(ADDR2, 2000).unwrap();
    let leaf3 = compute_leaf(ADDR3, 3000).unwrap();
    let orders: [[usize; 3]; 6] = [
        [0, 1, 2],
        [0, 2, 1],
        [1, 0, 2],
        [1, 2, 0],
        [2, 0, 1],
        [2, 1, 0],
    ];
    let leaves = [leaf1, leaf2, leaf3];
    let reference = OzMerkleTree::from_leaves(&leaves).unwrap().root();
    for order in orders {
        let permuted = [leaves[order[0]], leaves[order[1]], leaves[order[2]]];
        let root = OzMerkleTree::from_leaves(&permuted).unwrap().root();
        assert_eq!(root, reference);
    }
}

#[test]
fn round_trip_all_subscribers() {
    let subscribers: Vec<(String, i64)> = vec![
        (ADDR1.to_string(), 1000),
        (ADDR2.to_string(), 2000),
        (ADDR3.to_string(), 3000),
        ("0x4444444444444444444444444444444444444444".to_string(), 4000),
        ("0x5555555555555555555555555555555555555555".to_string(), 5000),
    ];
    let (root_hex, tree) = build_tree_from_records(&subscribers).unwrap();
    for (addr, exp) in &subscribers {
        let proof = get_proof_for_user(&tree, &subscribers, addr).unwrap();
        let ok = verify_subscription(&root_hex, &proof, addr, *exp).unwrap();
        assert!(ok);
    }
}

#[test]
fn tamper_detection() {
    let subscribers: Vec<(String, i64)> =
        vec![(ADDR1.to_string(), 1000), (ADDR2.to_string(), 2000)];
    let (root_hex, tree) = build_tree_from_records(&subscribers).unwrap();
    let proof = get_proof_for_user(&tree, &subscribers, ADDR1).unwrap();

    // The honest claim passes; any altered expiration fails.
    assert!(verify_subscription(&root_hex, &proof, ADDR1, 1000).unwrap());
    assert!(!verify_subscription(&root_hex, &proof, ADDR1, 9999999999).unwrap());
    assert!(!verify_subscription(&root_hex, &proof, ADDR1, 999).unwrap());
    // A different address with the right expiration fails too.
    assert!(!verify_subscription(&root_hex, &proof, ADDR3, 1000).unwrap());
}

#[test]
fn negative_proof_against_other_tree() {
    let subs_a: Vec<(String, i64)> = vec![(ADDR1.to_string(), 1000), (ADDR2.to_string(), 2000)];
    let subs_b: Vec<(String, i64)> = vec![
        ("0x6666666666666666666666666666666666666666".to_string(), 6000),
        ("0x7777777777777777777777777777777777777777".to_string(), 7000),
    ];
    let (_, tree_a) = build_tree_from_records(&subs_a).unwrap();
    let (root_b_hex, _) = build_tree_from_records(&subs_b).unwrap();
    let proof_a = get_proof_for_user(&tree_a, &subs_a, ADDR1).unwrap();
    assert!(!verify_subscription(&root_b_hex, &proof_a, ADDR1, 1000).unwrap());
}

#[test]
fn hash_pair_commutes_and_transforms() {
    let a = from_hex32(LEAF1_HEX);
    let b = from_hex32(LEAF2_HEX);
    assert_eq!(hash_pair(a, b), hash_pair(b, a));
    // The combination is a fresh digest, not either input handed back.
    assert_ne!(hash_pair(a, b), a);
    assert_ne!(hash_pair(a, b), b);
    assert_eq!(hex::encode(hash_pair(a, b)), ROOT2_HEX);
}

#[test]
fn duplicate_records_produce_duplicate_leaves() {
    let leaf = compute_leaf(ADDR1, 1000).unwrap();
    let tree = OzMerkleTree::from_leaves(&[leaf, leaf]).unwrap();
    assert_eq!(tree.root(), hash_pair(leaf, leaf));
    let proof = tree.get_proof(&leaf).unwrap();
    assert_eq!(proof, vec![leaf]);
    assert!(OzMerkleTree::verify(&tree.root(), &proof, &leaf));
}

#[test]
fn first_matching_record_wins() {
    // Two entries for one user: the proof is generated for the first.
    let subscribers: Vec<(String, i64)> = vec![
        (ADDR1.to_string(), 1000),
        (ADDR1.to_string(), 5000),
        (ADDR2.to_string(), 2000),
    ];
    let (root_hex, tree) = build_tree_from_records(&subscribers).unwrap();
    let proof = get_proof_for_user(&tree, &subscribers, ADDR1).unwrap();
    assert!(verify_subscription(&root_hex, &proof, ADDR1, 1000).unwrap());
    assert!(!verify_subscription(&root_hex, &proof, ADDR1, 5000).unwrap());
}

#[test]
fn build_returns_lowercase_hex_root() {
    let subscribers: Vec<(String, i64)> = vec![(ADDR1.to_string(), 1000)];
    let (root_hex, tree) = build_tree_from_records(&subscribers).unwrap();
    assert_eq!(root_hex, hex::encode(tree.root()));
    assert_eq!(root_hex.len(), 64);
}
