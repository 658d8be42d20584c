use merkle_trie::debug_functions::same_structure;
use merkle_trie::hash_structures::Hashable;
use merkle_trie::hash_structures::HashBytes;
use merkle_trie::treenode::hash_from_version;
use merkle_trie::treenode::roothash_from_proof;
use merkle_trie::treenode::ProofNode;
use merkle_trie::treenode::TreeError;
use merkle_trie::MerkleTree;

#[test]
fn empty_tree_behavior() {
    let mut tree = MerkleTree::new();
    assert!(tree.get_hash() == None);
    assert!(tree.contains(5i32) == None);
    assert!(tree.contains(0usize) == None);
    assert_eq!(tree.get_proof(5i32).unwrap_err(), TreeError::EmptyTree);
}

#[test]
fn two_keys_two_orders() {
    // Insert key 5 twice and key 7 once into tree A; the same multiset in a
    // different order into tree B.
    let mut a = MerkleTree::new();
    a.insert(5i32);
    a.insert(5i32);
    a.insert(7i32);

    let mut b = MerkleTree::new();
    b.insert(7i32);
    b.insert(5i32);
    b.insert(5i32);

    assert_eq!(a.get_hash().unwrap(), b.get_hash().unwrap());
    assert!(same_structure(&a, &b));
    assert_eq!(a.contains(5i32), Some(2));
    assert_eq!(b.contains(5i32), Some(2));
    assert_eq!(a.contains(7i32), Some(1));
    assert_eq!(b.contains(7i32), Some(1));
    assert!(a.contains(9i32) == None);

    let mut proof = a.get_proof(5i32).unwrap();
    let recomputed = roothash_from_proof(&mut proof).unwrap();
    assert_eq!(recomputed, a.get_hash().unwrap());
}

#[test]
fn repeated_insert_counts() {
    let mut tree = MerkleTree::new();
    for n in 1..30i32 {
        tree.insert(42i32);
        assert_eq!(tree.contains(42i32), Some(n));
    }
    assert!(tree.contains(41i32) == None);
}

#[test]
fn different_multiplicities_differ() {
    let mut a = MerkleTree::new();
    let mut b = MerkleTree::new();
    a.insert(3i32);
    b.insert(3i32);
    b.insert(3i32);
    assert_ne!(a.get_hash(), b.get_hash());
}

#[test]
fn known_sha256_digest() {
    // The SHA-256 digest of the bytes "crypto-hash".
    let data: Vec<u8> = b"crypto-hash".to_vec();
    let expected: Vec<u8> = vec![
        0xfd, 0x1a, 0xfb, 0x60, 0x22, 0xcd, 0x4d, 0x47, 0xc8, 0x90, 0x96, 0x1c, 0x53, 0x39, 0x28,
        0xea, 0xcf, 0xe8, 0x21, 0x9f, 0x1b, 0x25, 0x24, 0xf7, 0xfb, 0x2a, 0x61, 0x84, 0x7d, 0xdf,
        0x8c, 0x27,
    ];
    assert_eq!(data.raw_hash(), expected);
}

#[test]
fn key_hash_is_decimal_string_digest() {
    // Hashing an integer key hashes its decimal representation.
    let through_key = 375i32.raw_hash();
    let direct = crypto_hash::digest(crypto_hash::Algorithm::SHA256, b"375");
    assert_eq!(through_key, direct);

    let negative = (-42i32).raw_hash();
    let direct_negative = crypto_hash::digest(crypto_hash::Algorithm::SHA256, b"-42");
    assert_eq!(negative, direct_negative);

    let through_usize = 9000usize.raw_hash();
    let direct_usize = crypto_hash::digest(crypto_hash::Algorithm::SHA256, b"9000");
    assert_eq!(through_usize, direct_usize);
}

#[test]
fn version_hash_encoding() {
    // The version digest hashes the 4-byte little-endian counter followed by
    // the key digest.
    let key: Vec<u8> = (0u8..32).collect();
    let version = 258i32;
    let mut concat: Vec<u8> = vec![2, 1, 0, 0];
    concat.extend(&key);
    let expected = crypto_hash::digest(crypto_hash::Algorithm::SHA256, &concat);
    let got = hash_from_version(version, &HashBytes::new(key));
    assert_eq!(got.bytes().clone(), expected);
}

#[test]
fn malformed_proofs_are_rejected() {
    let mut empty: Vec<ProofNode> = vec![];
    assert_eq!(
        roothash_from_proof(&mut empty).unwrap_err(),
        TreeError::ProofMalformed
    );

    // A proof that ends in a sibling step instead of a terminal step.
    let mut sibling_last: Vec<ProofNode> = vec![ProofNode::Left(vec![1u8; 32])];
    assert_eq!(
        roothash_from_proof(&mut sibling_last).unwrap_err(),
        TreeError::ProofMalformed
    );

    // A proof with a terminal step in the middle.
    let mut leaf_middle: Vec<ProofNode> = vec![
        ProofNode::Leaf(vec![7u8; 32], 1),
        ProofNode::Leaf(vec![7u8; 32], 1),
    ];
    assert_eq!(
        roothash_from_proof(&mut leaf_middle).unwrap_err(),
        TreeError::ProofMalformed
    );

    // A terminal leaf step with a counter below one.
    let mut bad_counter: Vec<ProofNode> = vec![ProofNode::Leaf(vec![7u8; 32], 0)];
    assert_eq!(
        roothash_from_proof(&mut bad_counter).unwrap_err(),
        TreeError::ProofMalformed
    );
}

#[test]
fn singleton_proof_round_trip() {
    let mut tree = MerkleTree::new();
    tree.insert(1i32);
    let mut proof = tree.get_proof(1i32).unwrap();
    let recomputed = roothash_from_proof(&mut proof).unwrap();
    assert_eq!(recomputed, tree.get_hash().unwrap());
}

#[test]
fn proof_of_absent_key_still_folds() {
    // The proof documents what sits at the terminal position even when the
    // key is absent, and still folds to the root digest.
    let mut tree = MerkleTree::new();
    for i in 0..20usize {
        tree.insert(i);
    }
    assert!(tree.contains(999usize) == None);
    let mut proof = tree.get_proof(999usize).unwrap();
    let recomputed = roothash_from_proof(&mut proof).unwrap();
    assert_eq!(recomputed, tree.get_hash().unwrap());
}

#[test]
fn insert_checked_reports_room() {
    let mut tree = MerkleTree::new();
    assert!(tree.insert_checked(11i32));
    assert!(tree.insert_checked(11i32));
    assert_eq!(tree.contains(11i32), Some(2));
}

#[test]
fn byte_vector_keys() {
    let mut tree = MerkleTree::new();
    tree.insert(vec![1u8, 2, 3]);
    tree.insert(vec![1u8, 2, 3]);
    tree.insert(vec![4u8, 5]);
    assert_eq!(tree.contains(vec![1u8, 2, 3]), Some(2));
    assert_eq!(tree.contains(vec![4u8, 5]), Some(1));
    assert!(tree.contains(vec![9u8]) == None);
}

#[test]
fn vectorize_shapes() {
    let tree = MerkleTree::new();
    assert!(tree.vectorize().is_none());

    let mut single = MerkleTree::new();
    single.insert(1i32);
    let rows = single.vectorize().unwrap();
    assert_eq!(rows, vec![vec![Some(1)]]);

    let mut several = MerkleTree::new();
    for i in 0..8i32 {
        several.insert(i);
    }
    let rows = several.vectorize().unwrap();
    assert_eq!(rows[0], vec![Some(1)]);
    for (j, row) in rows.iter().enumerate() {
        assert_eq!(row.len(), 1usize << j);
    }
    let nodes: usize = rows
        .iter()
        .flatten()
        .filter(|cell| cell.is_some())
        .count();
    assert!(nodes >= 9);
}

#[test]
fn same_structure_differs() {
    let mut a = MerkleTree::new();
    let mut b = MerkleTree::new();
    a.insert(1i32);
    b.insert(1i32);
    b.insert(2i32);
    assert!(!same_structure(&a, &b));
    assert!(same_structure(&a, &a));
    let empty = MerkleTree::new();
    assert!(!same_structure(&a, &empty));
    assert!(same_structure(&empty, &MerkleTree::new()));
}
