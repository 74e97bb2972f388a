use ct_merkle::{ConsistencyProof, ConsistencyProofRef, CtMerkleTree, RootHash, VerificationError};

/// A deterministic 32-byte leaf value, distinct across `(run, pos)`.
fn test_leaf(run: usize, pos: usize) -> Vec<u8> {
    let mut v = Vec::with_capacity(32);
    let mut state: u64 = (run as u64).wrapping_mul(0x9e3779b97f4a7c15).wrapping_add(pos as u64);
    for _ in 0..32 {
        state = state.wrapping_mul(6364136223846793005).wrapping_add(1442695040888963407);
        v.push((state >> 56) as u8);
    }
    v
}

fn build_tree(run: usize, size: usize) -> CtMerkleTree {
    let mut t = CtMerkleTree::new();
    for pos in 0..size {
        t.push(test_leaf(run, pos));
    }
    t
}

// Tests that an honestly generated consistency proof verifies, for
// every pair of sizes with an initial size in 1..50 and up to 49
// appended leaves.
#[test]
fn consistency_proof_correctness() {
    for initial_size in 1..50usize {
        for num_to_add in 0..50usize {
            let mut v = build_tree(initial_size * 50 + num_to_add, initial_size);
            let initial_size = v.len();
            let initial_root = v.root();

            // Now add to v
            for pos in 0..num_to_add {
                let val = test_leaf(usize::MAX - num_to_add, initial_size + pos);
                v.push(val);
            }
            let new_root = v.root();

            // Now make a consistency proof and check it
            let proof = v.consistency_proof(initial_size);
            new_root.verify_consistency(&initial_root, &proof.as_ref()).expect(&format!(
                "Consistency check failed for {} -> {} leaves",
                initial_size,
                initial_size + num_to_add
            ));
        }
    }
}

// A proof from a tree to itself is empty, and an empty proof between
// equal root digests verifies.
#[test]
fn self_consistency_empty_proof() {
    for size in 1..9usize {
        let t = build_tree(size, size);
        let proof = t.consistency_proof(size);
        assert_eq!(proof.as_bytes().len(), 0);
        let root = t.root();
        let root_again = t.root();
        assert!(root_again.verify_consistency(&root, &proof.as_ref()).is_ok());
    }
    // Any root at all accepts the empty proof against itself.
    let odd_root = RootHash { root_hash: vec![7u8; 32], num_leaves: 3 };
    let same_root = RootHash { root_hash: vec![7u8; 32], num_leaves: 3 };
    let empty: Vec<u8> = Vec::new();
    assert!(same_root.verify_consistency(&odd_root, &ConsistencyProofRef::new(&empty)).is_ok());
}

// Appending one stray byte to a valid nonempty proof makes it
// malformed.
#[test]
fn trailing_byte_is_malformed() {
    let mut t = build_tree(3, 3);
    let old_root = t.root();
    for pos in 3..7 {
        t.push(test_leaf(3, pos));
    }
    let new_root = t.root();
    let proof = t.consistency_proof(3);
    assert!(proof.as_bytes().len() > 0);
    assert!(new_root.verify_consistency(&old_root, &proof.as_ref()).is_ok());

    let mut corrupted = proof.as_bytes().to_vec();
    corrupted.push(0);
    let res = new_root.verify_consistency(&old_root, &ConsistencyProofRef::new(&corrupted));
    assert_eq!(res, Err(VerificationError::MalformedProof));
}

// Flipping any single byte of a valid nonempty proof makes
// verification fail; no flipped variant is accepted.
#[test]
fn flipped_byte_fails() {
    let mut t = build_tree(11, 5);
    let old_root = t.root();
    for pos in 5..12 {
        t.push(test_leaf(11, pos));
    }
    let new_root = t.root();
    let proof = t.consistency_proof(5);
    let bytes = proof.as_bytes();
    assert!(bytes.len() > 0);
    assert!(new_root.verify_consistency(&old_root, &proof.as_ref()).is_ok());

    for flip in 0..bytes.len() {
        let mut corrupted = bytes.to_vec();
        corrupted[flip] ^= 0x01;
        let res = new_root.verify_consistency(&old_root, &ConsistencyProofRef::new(&corrupted));
        assert_eq!(
            res,
            Err(VerificationError::Failure),
            "flipping byte {} was not caught",
            flip
        );
    }
}

// Swapping the old root digest for an unrelated digest of the same
// size makes verification fail, with the proof and new root fixed.
#[test]
fn wrong_old_root_fails() {
    let mut t = build_tree(21, 6);
    let old_root = t.root();
    for pos in 6..11 {
        t.push(test_leaf(21, pos));
    }
    let new_root = t.root();
    let proof = t.consistency_proof(6);
    assert!(new_root.verify_consistency(&old_root, &proof.as_ref()).is_ok());

    let unrelated = build_tree(99, 6).root();
    assert_eq!(unrelated.root_hash.len(), old_root.root_hash.len());
    assert_ne!(unrelated.root_hash, old_root.root_hash);
    let forged = RootHash { root_hash: unrelated.root_hash, num_leaves: old_root.num_leaves };
    let res = new_root.verify_consistency(&forged, &proof.as_ref());
    assert_eq!(res, Err(VerificationError::Failure));
}

// The concrete scenario: a tree of one leaf proves itself with the
// empty proof; after two appends, the proof from size 1 to size 3 is
// nonempty and verifies.
#[test]
fn one_leaf_then_three() {
    let mut t = CtMerkleTree::new();
    t.push(b"A".to_vec());
    assert_eq!(t.consistency_proof(1).as_bytes().len(), 0);
    let old_root = t.root();

    t.push(b"B".to_vec());
    t.push(b"C".to_vec());
    let new_root = t.root();

    let proof = t.consistency_proof(1);
    assert!(proof.as_bytes().len() > 0);
    assert_eq!(proof.as_bytes().len() % 32, 0);
    assert_eq!(new_root.verify_consistency(&old_root, &proof.as_ref()), Ok(()));
}

// The root digest of the empty tree is the hash of the empty byte
// string.
#[test]
fn empty_tree_root_digest() {
    let expected: Vec<u8> = vec![
        0xe3, 0xb0, 0xc4, 0x42, 0x98, 0xfc, 0x1c, 0x14, 0x9a, 0xfb, 0xf4, 0xc8, 0x99, 0x6f, 0xb9,
        0x24, 0x27, 0xae, 0x41, 0xe4, 0x64, 0x9b, 0x93, 0x4c, 0xa4, 0x95, 0x99, 0x1b, 0x78, 0x52,
        0xb8, 0x55,
    ];
    let t = CtMerkleTree::new();
    let root = t.root();
    assert_eq!(root.num_leaves, 0);
    assert_eq!(root.root_hash, expected);
}

// Serializing a proof and reading it back preserves its bytes.
#[test]
fn proof_byte_round_trip() {
    let mut t = build_tree(31, 4);
    let old_root = t.root();
    for pos in 4..9 {
        t.push(test_leaf(31, pos));
    }
    let new_root = t.root();
    let proof = t.consistency_proof(4);

    let bytes = proof.as_bytes().to_vec();
    let rebuilt = ConsistencyProof::from_bytes(&bytes);
    assert_eq!(rebuilt.as_bytes(), proof.as_bytes());
    assert_eq!(new_root.verify_consistency(&old_root, &rebuilt.as_ref()), Ok(()));
}

// Distinct leaves give distinct roots: the tree really hashes its
// contents.
#[test]
fn roots_depend_on_leaves() {
    let a = build_tree(1, 3).root();
    let b = build_tree(2, 3).root();
    assert_eq!(a.num_leaves, b.num_leaves);
    assert_ne!(a.root_hash, b.root_hash);
}

// The root digest of a tree holding one empty leaf is the hash of a
// single zero byte, the leaf domain prefix.
#[test]
fn single_empty_leaf_root_digest() {
    let expected: Vec<u8> = vec![
        0x6e, 0x34, 0x0b, 0x9c, 0xff, 0xb3, 0x7a, 0x98, 0x9c, 0xa5, 0x44, 0xe6, 0xbb, 0x78, 0x0a,
        0x2c, 0x78, 0x90, 0x1d, 0x3f, 0xb3, 0x37, 0x38, 0x76, 0x85, 0x11, 0xa3, 0x06, 0x17, 0xaf,
        0xa0, 0x1d,
    ];
    let mut t = CtMerkleTree::new();
    t.push(Vec::new());
    let root = t.root();
    assert_eq!(root.num_leaves, 1);
    assert_eq!(root.root_hash, expected);
}
