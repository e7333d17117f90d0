use std::collections::BTreeMap;

use sha2::Digest;
use sparse_tree::protocol::{ProofClaims, ProvingInput};

use sparse_tree::hasher::{MerkleError, Sha256Hasher, BYTE32};
use sparse_tree::smt::{gen_empty_hashes, Path, PartialTree, SparseMerkleTree};

type Tree32 = SparseMerkleTree<BYTE32, Sha256Hasher, 32>;
type Tree4 = SparseMerkleTree<BYTE32, Sha256Hasher, 4>;

/// SHA-256 of the concatenation of two 32-byte blocks, computed directly
/// with the sha2 crate, independently of the library.
fn sha_pair(a: &BYTE32, b: &BYTE32) -> BYTE32 {
    let mut h = sha2::Sha256::new();
    h.update(a);
    h.update(b);
    let out = h.finalize();
    let mut r = [0u8; 32];
    r.copy_from_slice(&out);
    r
}

/// Independent recomputation of the subtree digest covering slots
/// `[start, start + 2^ht)` from a plain leaf map and the empty ladder.
fn ref_node(leaves: &BTreeMap<u64, BYTE32>, ladder: &[BYTE32], start: u64, ht: usize) -> BYTE32 {
    let width = 1u64 << ht;
    if !leaves.range(start..start + width).next().is_some() {
        return ladder[ht];
    }
    if ht == 0 {
        return *leaves.get(&start).unwrap();
    }
    let left = ref_node(leaves, ladder, start, ht - 1);
    let right = ref_node(leaves, ladder, start + width / 2, ht - 1);
    sha_pair(&left, &right)
}

/// An independent ladder: entry 0 is the default leaf, each later entry the
/// hash of two copies of the one below. One extra entry covers the root.
fn ref_ladder(default_leaf: BYTE32, len: usize) -> Vec<BYTE32> {
    let mut v = vec![default_leaf];
    for l in 1..len {
        let p = v[l - 1];
        v.push(sha_pair(&p, &p));
    }
    v
}

fn ten_leaves() -> Vec<BYTE32> {
    let mut leaves = vec![];
    for n in 0..10 {
        let mut s = [0u8; 32];
        s[0] = n;
        leaves.push(s);
    }
    leaves
}

#[test]
fn merkleput() {
    let mut leaves = vec![];
    for n in 0..10 {
        let mut s = [0; 32];
        s[0] = n;
        leaves.push(s);
    }
    let h = Sha256Hasher;
    let mut tree: SparseMerkleTree<[u8; 32], Sha256Hasher, 32> =
        SparseMerkleTree::new_sequential(&leaves, &h, [0; 32]).unwrap();
    let mut l1 = [0; 32];
    l1[0] = 222;

    let mut map = BTreeMap::new();
    map.insert(2, l1);
    let p = tree.insert_batch(&map, &h);
    assert!(p.is_ok());
    let p = tree.generate_membership_path(5);
    println!("{:?}", &p);
}

#[test]
fn empty_ladder_recurrence() {
    let h = Sha256Hasher;
    let eh = gen_empty_hashes::<BYTE32, Sha256Hasher, 32>(&h, [0u8; 32]).unwrap();
    assert_eq!(eh.len(), 32);
    assert_eq!(eh[0], [0u8; 32]);
    for l in 1..32 {
        assert_eq!(eh[l], sha_pair(&eh[l - 1], &eh[l - 1]));
    }
}

#[test]
fn ten_leaf_root_deterministic() {
    let h = Sha256Hasher;
    let leaves = ten_leaves();
    let t1: Tree32 = SparseMerkleTree::new_sequential(&leaves, &h, [0u8; 32]).unwrap();
    let mut map = BTreeMap::new();
    for (i, l) in leaves.iter().enumerate() {
        map.insert(i as u32, *l);
    }
    let t2: Tree32 = SparseMerkleTree::new(&map, &h, [0u8; 32]).unwrap();
    assert_eq!(t1.root(), t2.root());

    // and the root matches an independent recomputation
    let ladder = ref_ladder([0u8; 32], 33);
    let mut map64 = BTreeMap::new();
    for (i, l) in leaves.iter().enumerate() {
        map64.insert(i as u64, *l);
    }
    let expected = ref_node(&map64, &ladder, 0, 32);
    assert_eq!(t1.root(), expected);
    assert_ne!(t1.root(), ladder[31]);
}

#[test]
fn batch_prove_single_leaf() {
    let h = Sha256Hasher;
    let leaves = ten_leaves();
    let tree: Tree32 = SparseMerkleTree::new_sequential(&leaves, &h, [0u8; 32]).unwrap();
    let pt = tree.batch_prove(&vec![5u64]);
    assert_eq!(pt.root, tree.root());
    assert_eq!(pt.leaves, vec![5u64]);

    // the partial tree holds exactly the distinct path-and-sibling nodes of
    // leaf node 2^32 - 1 + 5 whose stored digest is not the empty hash of
    // their level
    let ladder = ref_ladder([0u8; 32], 32);
    let mut expected = std::collections::BTreeSet::new();
    let mut node = (1u64 << 32) - 1 + 5;
    let mut level = 0usize;
    while node != 0 {
        let sib = if node % 2 == 1 { node + 1 } else { node - 1 };
        for cand in [node, sib] {
            if let Some(v) = tree.tree.get(&cand) {
                if *v != ladder[level] {
                    expected.insert(cand);
                }
            }
        }
        node = (node - 1) / 2;
        level += 1;
    }
    assert_eq!(pt.tree.len(), expected.len());
    assert!(pt.verify(&h).is_ok());
    assert!(pt.verify_strict(&h).is_ok());
}

#[test]
fn flipped_node_fails_verification() {
    let h = Sha256Hasher;
    let leaves = ten_leaves();
    let tree: Tree32 = SparseMerkleTree::new_sequential(&leaves, &h, [0u8; 32]).unwrap();
    let mut pt = tree.batch_prove(&vec![5u64]);
    // flip the last byte of one materialized digest
    let (&idx, val) = pt.tree.iter().next().expect("proof holds materialized nodes");
    let mut forged = *val;
    forged[31] ^= 1;
    pt.tree.insert(idx, forged);
    assert_eq!(pt.verify(&h), Err(MerkleError::HashMismatch));
}

#[test]
fn empty_batch_proof_trivially_verifies() {
    let h = Sha256Hasher;
    let leaves = ten_leaves();
    let tree: Tree32 = SparseMerkleTree::new_sequential(&leaves, &h, [0u8; 32]).unwrap();
    let pt = tree.batch_prove(&vec![]);
    assert!(pt.leaves.is_empty());
    assert!(pt.verify(&h).is_ok());
    assert!(pt.verify_strict(&h).is_ok());
}

#[test]
fn batch_prove_many_leaves_verifies() {
    let h = Sha256Hasher;
    let leaves = ten_leaves();
    let tree: Tree32 = SparseMerkleTree::new_sequential(&leaves, &h, [0u8; 32]).unwrap();
    let pt = tree.batch_prove(&vec![0u64, 3, 5, 9]);
    assert_eq!(pt.root, tree.root());
    assert!(pt.verify(&h).is_ok());
    assert!(pt.verify_strict(&h).is_ok());

    // minimality: no materialized digest equals the empty hash of its level
    let ladder = ref_ladder([0u8; 32], 32);
    for (&idx, val) in pt.tree.iter() {
        let depth = 64 - (idx + 1).leading_zeros() as usize - 1;
        let level = 32 - depth;
        assert_ne!(*val, ladder[level]);
    }
}

#[test]
fn insertion_order_does_not_matter() {
    let h = Sha256Hasher;
    let mut v = [0u8; 32];
    v[0] = 41;
    let mut w = [0u8; 32];
    w[0] = 97;

    let mut both = BTreeMap::new();
    both.insert(0u32, v);
    both.insert(7u32, w);
    let ta: Tree32 = SparseMerkleTree::new(&both, &h, [0u8; 32]).unwrap();

    let mut first = BTreeMap::new();
    first.insert(7u32, w);
    let mut tb: Tree32 = SparseMerkleTree::new(&first, &h, [0u8; 32]).unwrap();
    let mut second = BTreeMap::new();
    second.insert(0u32, v);
    tb.insert_batch(&second, &h).unwrap();

    assert_eq!(ta.root(), tb.root());
}

#[test]
fn empty_tree_root_is_ladder_top() {
    let h = Sha256Hasher;
    let empty = BTreeMap::new();
    let tree: Tree32 = SparseMerkleTree::new(&empty, &h, [0u8; 32]).unwrap();
    let eh = gen_empty_hashes::<BYTE32, Sha256Hasher, 32>(&h, [0u8; 32]).unwrap();
    assert_eq!(tree.root(), eh[31]);
}

#[test]
fn height_four_single_leaf_root() {
    let h = Sha256Hasher;
    let mut v = [0u8; 32];
    v[0] = 1;
    let mut map = BTreeMap::new();
    map.insert(3u32, v);
    let tree: Tree4 = SparseMerkleTree::new(&map, &h, [0u8; 32]).unwrap();
    // ladder: e1 = H(e0, e0), e2 = H(e1, e1), e3 = H(e2, e2)
    let e0 = [0u8; 32];
    let e1 = sha_pair(&e0, &e0);
    let e2 = sha_pair(&e1, &e1);
    let e3 = sha_pair(&e2, &e2);
    // slot 3 pairs with empty slot 2, then with the empty pair (0, 1), then
    // with the empty quarters and the empty half of the 16-slot tree
    let lvl1 = sha_pair(&e0, &v);
    let lvl2 = sha_pair(&e1, &lvl1);
    let lvl3 = sha_pair(&lvl2, &e2);
    assert_eq!(tree.root(), sha_pair(&lvl3, &e3));
}

#[test]
fn membership_path_round_trip() {
    let h = Sha256Hasher;
    let leaves = ten_leaves();
    let tree: Tree32 = SparseMerkleTree::new_sequential(&leaves, &h, [0u8; 32]).unwrap();
    let root = tree.root();
    for (i, leaf) in leaves.iter().enumerate() {
        let path = tree.generate_membership_path(i as u64);
        assert_eq!(path.check_membership(&root, leaf, &h), Ok(true));
    }
    // a wrong leaf at an attested slot fails the equality
    let path = tree.generate_membership_path(12);
    let mut other = [0u8; 32];
    other[0] = 77;
    assert_eq!(path.check_membership(&root, &other, &h), Err(MerkleError::InvalidLeaf));
}

#[test]
fn membership_proof_round_trip() {
    let h = Sha256Hasher;
    let leaves = ten_leaves();
    let tree: Tree32 = SparseMerkleTree::new_sequential(&leaves, &h, [0u8; 32]).unwrap();
    let proof = tree.generate_membership_proof(4);
    assert_eq!(proof.leaf, leaves[4]);
    assert_eq!(proof.root, tree.root());
    assert_eq!(proof.verify(&h), Ok(true));
}

#[test]
fn inconsistent_path_reports_invalid_nodes() {
    let h = Sha256Hasher;
    let mut a = [0u8; 32];
    a[0] = 1;
    let b = [0u8; 32];
    // the second pair has nothing to do with the hash of the first
    let path: Path<BYTE32, 2> = Path { path: vec![(a, b), (a, b)] };
    assert_eq!(path.calculate_root(&a, &h), Err(MerkleError::InvalidPathNodes));
}

#[test]
fn mismatched_root_reports_false() {
    let h = Sha256Hasher;
    let leaves = ten_leaves();
    let tree: Tree32 = SparseMerkleTree::new_sequential(&leaves, &h, [0u8; 32]).unwrap();
    let path = tree.generate_membership_path(2);
    let wrong_root = [9u8; 32];
    assert_eq!(path.check_membership(&wrong_root, &leaves[2], &h), Ok(false));
}

#[test]
fn claim_matches_partial_tree_root() {
    let h = Sha256Hasher;
    let leaves = ten_leaves();
    let tree: Tree32 = SparseMerkleTree::new_sequential(&leaves, &h, [0u8; 32]).unwrap();
    let pt: PartialTree<BYTE32, 32> = tree.batch_prove(&vec![1u64, 2]);
    let good = ProvingInput { claim: ProofClaims { root: pt.root }, pt };
    assert!(good.claim_matches());
    let pt2 = tree.batch_prove(&vec![1u64, 2]);
    let mut bad_root = pt2.root;
    bad_root[31] ^= 0xff;
    let bad = ProvingInput { claim: ProofClaims { root: bad_root }, pt: pt2 };
    assert!(!bad.claim_matches());
}

#[test]
fn flipped_root_fails_strict_verification() {
    let h = Sha256Hasher;
    let leaves = ten_leaves();
    let tree: Tree32 = SparseMerkleTree::new_sequential(&leaves, &h, [0u8; 32]).unwrap();
    let mut pt = tree.batch_prove(&vec![5u64]);
    pt.root[31] ^= 1;
    assert_eq!(pt.verify_strict(&h), Err(MerkleError::HashMismatch));
}

#[test]
fn flipped_node_fails_strict_verification() {
    let h = Sha256Hasher;
    let leaves = ten_leaves();
    let tree: Tree32 = SparseMerkleTree::new_sequential(&leaves, &h, [0u8; 32]).unwrap();
    let mut pt = tree.batch_prove(&vec![5u64]);
    let (&idx, val) = pt.tree.iter().next().expect("proof holds materialized nodes");
    let mut forged = *val;
    forged[31] ^= 1;
    pt.tree.insert(idx, forged);
    assert_eq!(pt.verify_strict(&h), Err(MerkleError::HashMismatch));
}
