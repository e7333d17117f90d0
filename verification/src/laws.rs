//! Laws of the sparse Merkle tree: statements that relate several of the
//! core operations, proved once and for all against their contracts.

use vstd::prelude::*;

verus! {

use vstd::arithmetic::power2::pow2;
use crate::hasher::{FieldExt, FieldHasher, MerkleError, hasher_total};
use crate::index::{
    sp_left, sp_right, sp_sibling, sp_leaf, node_at, height_of, lemma_height_of,
    lemma_parent_child, lemma_anc_root, lemma_sibling_at, lemma_child_at, lemma_pow2_le,
};
use crate::smt::{
    SparseMerkleTree, PartialTree, anc_node, node_hash, empty_hash_at, slot_under, stored_or,
    proof_covered, walk_covered, spec_path_fold, spec_check_membership, lemma_anc_bounds,
    lemma_node_hash_empty,
};

/// Root determinism: two trees holding the same leaf assignment over the
/// same default leaf and hasher report the same root, however they were
/// built.
pub proof fn lemma_root_deterministic<F: FieldExt, H: FieldHasher<F>, const N: usize>(
    t1: SparseMerkleTree<F, H, N>,
    t2: SparseMerkleTree<F, H, N>,
    h: H,
)
    requires
        t1.wf(h),
        t2.wf(h),
        t1.assignment() == t2.assignment(),
        t1.default_leaf() == t2.default_leaf(),
    ensures
        t1.spec_root() == t2.spec_root(),
{
    let nn = N as nat;
    assert(height_of(0, nn) == nn);
    lemma_contains_root(t1, t2, h);
    lemma_contains_root(t2, t1, h);
}

/// If one of two trees with the same assignment materializes the root, so
/// does the other.
proof fn lemma_contains_root<F: FieldExt, H: FieldHasher<F>, const N: usize>(
    t1: SparseMerkleTree<F, H, N>,
    t2: SparseMerkleTree<F, H, N>,
    h: H,
)
    requires
        t1.wf(h),
        t2.wf(h),
        t1.assignment() == t2.assignment(),
    ensures
        t1.tree@.contains_key(0) ==> t2.tree@.contains_key(0),
{
    let nn = N as nat;
    if t1.tree@.contains_key(0) {
        let (kk, s) = choose|kk: u64, s: nat|
            #![trigger anc_node(kk, s, nn)]
            kk < pow2(nn) && s <= N && anc_node(kk, s, nn) == 0 && t1.assignment().contains_key(
                kk,
            );
        lemma_anc_root(kk as int, nn, nn);
        assert(t2.tree@.contains_key(anc_node(kk, nn, nn) as u64));
    }
}

/// Empty-tree law: a well-formed tree holding no leaves reports the top of
/// the empty-hash ladder as its root.
pub proof fn lemma_empty_tree_root<F: FieldExt, H: FieldHasher<F>, const N: usize>(
    t: SparseMerkleTree<F, H, N>,
    h: H,
)
    requires
        t.wf(h),
        t.assignment() == Map::<u64, F>::empty(),
    ensures
        t.spec_root() == t.empty_hashes@[N - 1],
{
    let nn = N as nat;
    if t.tree@.contains_key(0) {
        assert(exists|kk: u64, s: nat|
            #![trigger anc_node(kk, s, nn)]
            kk < pow2(nn) && s <= N && anc_node(kk, s, nn) == 0 && t.assignment().contains_key(
                kk,
            ));
        let (kk, s) = choose|kk: u64, s: nat|
            #![trigger anc_node(kk, s, nn)]
            kk < pow2(nn) && s <= N && anc_node(kk, s, nn) == 0 && t.assignment().contains_key(
                kk,
            );
        assert(t.assignment().contains_key(kk));
        assert(false);
    }
}

/// The digest that the node map stores, or imputes from the ladder, at a
/// valid node equals the subtree digest of that node.
#[verifier::rlimit(100)]
proof fn lemma_tree_stored<F: FieldExt, H: FieldHasher<F>>(
    h: H,
    tm: Map<u64, F>,
    eh: Seq<F>,
    a: Map<u64, F>,
    d: F,
    n: nat,
    x: int,
    lx: nat,
)
    requires
        1 <= n <= 63,
        eh.len() == n,
        forall|l: int| 0 <= l < n ==> eh[l] == empty_hash_at(h, d, l as nat),
        forall|i: u64| #[trigger] tm.contains_key(i) ==> tm[i] == node_hash(
            h,
            a,
            d,
            n,
            i as int,
            height_of(i as int, n),
        ),
        forall|kk: u64, s: nat|
            #![trigger a.contains_key(kk), anc_node(kk, s, n)]
            a.contains_key(kk) && s <= n ==> tm.contains_key(anc_node(kk, s, n) as u64),
        forall|kk: u64| #[trigger] a.contains_key(kk) ==> kk < pow2(n),
        node_at(x, lx, n),
        lx < n,
        0 <= x <= u64::MAX,
    ensures
        stored_or(tm, x, eh[lx as int]) == node_hash(h, a, d, n, x, lx),
{
    lemma_height_of(x, lx, n);
    if tm.contains_key(x as u64) {
        assert(tm[x as u64] == node_hash(h, a, d, n, x, lx));
    } else {
        assert forall|kk: int|
            0 <= kk < pow2(n) && #[trigger] slot_under(kk, x, lx, n) implies !a.contains_key(
            kk as u64,
        ) by {
            if a.contains_key(kk as u64) {
                lemma_anc_bounds(kk as u64, lx, n);
                assert(anc_node(kk as u64, lx, n) == x);
                assert(tm.contains_key(x as u64));
                assert(false);
            }
        }
        lemma_node_hash_empty(h, a, d, n, x, lx);
    }
}

/// The membership-path pair at level `l` of an inserted leaf carries exactly
/// the subtree digests of the two children of the level-`l + 1` ancestor.
#[verifier::rlimit(100)]
proof fn lemma_path_pair_values<F: FieldExt, H: FieldHasher<F>, const N: usize>(
    t: SparseMerkleTree<F, H, N>,
    h: H,
    a: Map<u64, F>,
    d: F,
    k: u64,
    l: nat,
)
    requires
        1 <= N <= 63,
        t.empty_hashes@.len() == N,
        forall|ll: int|
            0 <= ll < N ==> t.empty_hashes@[ll] == empty_hash_at(h, d, ll as nat),
        forall|i: u64| #[trigger] t.tree@.contains_key(i) ==> t.tree@[i] == node_hash(
            h,
            a,
            d,
            N as nat,
            i as int,
            height_of(i as int, N as nat),
        ),
        forall|kk: u64, s: nat|
            #![trigger a.contains_key(kk), anc_node(kk, s, N as nat)]
            a.contains_key(kk) && s <= N ==> t.tree@.contains_key(
                anc_node(kk, s, N as nat) as u64,
            ),
        forall|kk: u64| #[trigger] a.contains_key(kk) ==> kk < pow2(N as nat),
        a.contains_key(k),
        l < N,
    ensures
        ({
            let pr = t.spec_path_pair(k, l);
            let p = anc_node(k, (l + 1) as nat, N as nat);
            &&& pr.0 == node_hash(h, a, d, N as nat, sp_left(p), l)
            &&& pr.1 == node_hash(h, a, d, N as nat, sp_right(p), l)
            &&& (node_hash(h, a, d, N as nat, anc_node(k, l, N as nat), l) == pr.0 || node_hash(
                h,
                a,
                d,
                N as nat,
                anc_node(k, l, N as nat),
                l,
            ) == pr.1)
        }),
{
    let nn = N as nat;
    assert(k < pow2(nn));
    lemma_anc_bounds(k, l, nn);
    lemma_anc_bounds(k, (l + 1) as nat, nn);
    lemma_anc_root(k as int, l, nn);
    let c = anc_node(k, l, nn);
    let sb = sp_sibling(c);
    lemma_sibling_at(c, l, nn);
    lemma_parent_child(c);
    lemma_pow2_le((nn - l) as nat, 63);
    vstd::arithmetic::power2::lemma2_to64_rest();
    vstd::arithmetic::power2::lemma_pow2_unfold(64);
    lemma_tree_stored(h, t.tree@, t.empty_hashes@, a, d, nn, c, l);
    lemma_tree_stored(h, t.tree@, t.empty_hashes@, a, d, nn, sb, l);
}

/// Walking the membership-path pairs of an inserted leaf upward from level
/// `l` folds to the digest of the whole tree.
#[verifier::rlimit(100)]
proof fn lemma_path_fold_up<F: FieldExt, H: FieldHasher<F>, const N: usize>(
    t: SparseMerkleTree<F, H, N>,
    h: H,
    k: u64,
    l: nat,
)
    requires
        t.wf(h),
        hasher_total::<F, H>(h),
        t.assignment().contains_key(k),
        l <= N,
    ensures
        ({
            let pth = Seq::new(N as nat, |x: int| t.spec_path_pair(k, x as nat));
            spec_path_fold(
                h,
                pth.skip(l as int),
                node_hash(
                    h,
                    t.assignment(),
                    t.default_leaf(),
                    N as nat,
                    anc_node(k, l, N as nat),
                    l,
                ),
            ) == Ok::<F, MerkleError>(
                node_hash(h, t.assignment(), t.default_leaf(), N as nat, 0, N as nat),
            )
        }),
    decreases N - l,
{
    let nn = N as nat;
    let a = t.assignment();
    let d = t.default_leaf();
    let pth = Seq::new(nn, |x: int| t.spec_path_pair(k, x as nat));
    if l == N {
        assert(k < pow2(nn));
        lemma_anc_root(k as int, nn, nn);
        assert(pth.skip(l as int) =~= Seq::<(F, F)>::empty());
    } else {
        lemma_path_pair_values(t, h, a, d, k, l);
        let p = anc_node(k, (l + 1) as nat, nn);
        let pr = t.spec_path_pair(k, l);
        assert(pth.skip(l as int)[0] == pth[l as int]);
        assert(pth[l as int] == pr);
        assert(h.spec_hash(node_hash(h, a, d, nn, sp_left(p), l), node_hash(h, a, d, nn, sp_right(p), l))
            == node_hash(h, a, d, nn, p, (l + 1) as nat));
        assert(pth.skip(l as int).drop_first() =~= pth.skip(l as int + 1));
        lemma_path_fold_up(t, h, k, (l + 1) as nat);
    }
}

/// Proof round-trip: for every inserted leaf, the generated membership path
/// checks out against the tree's own root and the leaf's stored digest.
#[verifier::rlimit(100)]
pub proof fn lemma_membership_path_roundtrip<F: FieldExt, H: FieldHasher<F>, const N: usize>(
    t: SparseMerkleTree<F, H, N>,
    h: H,
    k: u64,
)
    requires
        t.wf(h),
        hasher_total::<F, H>(h),
        t.assignment().contains_key(k),
    ensures
        ({
            let pth = Seq::new(N as nat, |l: int| t.spec_path_pair(k, l as nat));
            spec_check_membership(h, pth, t.spec_root(), t.assignment()[k]) == Ok::<
                bool,
                MerkleError,
            >(true)
        }),
{
    let nn = N as nat;
    let a = t.assignment();
    let d = t.default_leaf();
    let pth = Seq::new(nn, |l: int| t.spec_path_pair(k, l as nat));
    assert(k < pow2(nn));
    lemma_anc_bounds(k, 0, nn);
    lemma_anc_root(k as int, 0, nn);
    // the leaf digest is the level-0 subtree digest, and it is the path-side
    // entry of the first pair
    assert(anc_node(k, 0, nn) == sp_leaf(k as int, nn));
    assert(node_hash(h, a, d, nn, sp_leaf(k as int, nn), 0) == a[k]) by {
        assert(sp_leaf(k as int, nn) - (pow2(nn) - 1) == k as int);
    }
    let c = anc_node(k, 0, nn);
    lemma_sibling_at(c, 0, nn);
    lemma_tree_stored(h, t.tree@, t.empty_hashes@, a, d, nn, c, 0);
    assert(t.tree@.contains_key(anc_node(k, 0, nn) as u64));
    assert(pth[0] == t.spec_path_pair(k, 0));
    assert(a[k] == pth[0].0 || a[k] == pth[0].1);
    assert(pth.skip(0) =~= pth);
    lemma_path_fold_up(t, h, k, 0);
    // the root node is materialized, so the reported root is its digest
    lemma_anc_root(k as int, nn, nn);
    assert(t.tree@.contains_key(anc_node(k, nn, nn) as u64));
    assert(height_of(0, nn) == nn);
    assert(t.spec_root() == node_hash(h, a, d, nn, 0, nn));
}

/// Minimality: no digest materialized in a partial tree produced by
/// `batch_prove` equals the empty hash of its level.
pub proof fn lemma_batch_prove_minimal<F: FieldExt, H: FieldHasher<F>, const N: usize>(
    t: SparseMerkleTree<F, H, N>,
    pt: PartialTree<F, N>,
    h: H,
)
    requires
        pt.empty_hashes@ == t.empty_hashes@,
        forall|i: u64| #[trigger] pt.tree@.contains_key(i) <==> (t.tree@.contains_key(i)
            && proof_covered(pt.leaves@, i as int, N as nat) && t.tree@[i]
            != t.empty_hashes@[height_of(i as int, N as nat) as int]),
        forall|i: u64| #[trigger] pt.tree@.contains_key(i) ==> pt.tree@[i] == t.tree@[i],
    ensures
        forall|i: u64| #[trigger] pt.tree@.contains_key(i) ==> pt.tree@[i]
            != pt.empty_hashes@[height_of(i as int, N as nat) as int],
{
}

/// The digest that a partial tree produced by `batch_prove` stores, or
/// imputes from the ladder, at a covered node equals that node's subtree
/// digest in the full tree.
#[verifier::rlimit(100)]
proof fn lemma_pt_stored<F: FieldExt, H: FieldHasher<F>, const N: usize>(
    t: SparseMerkleTree<F, H, N>,
    pt: PartialTree<F, N>,
    h: H,
    a: Map<u64, F>,
    d: F,
    x: int,
    lx: nat,
)
    requires
        1 <= N <= 63,
        t.empty_hashes@.len() == N,
        forall|ll: int|
            0 <= ll < N ==> t.empty_hashes@[ll] == empty_hash_at(h, d, ll as nat),
        forall|i: u64| #[trigger] t.tree@.contains_key(i) ==> t.tree@[i] == node_hash(
            h,
            a,
            d,
            N as nat,
            i as int,
            height_of(i as int, N as nat),
        ),
        forall|kk: u64, s: nat|
            #![trigger a.contains_key(kk), anc_node(kk, s, N as nat)]
            a.contains_key(kk) && s <= N ==> t.tree@.contains_key(
                anc_node(kk, s, N as nat) as u64,
            ),
        forall|kk: u64| #[trigger] a.contains_key(kk) ==> kk < pow2(N as nat),
        pt.empty_hashes@ == t.empty_hashes@,
        forall|i: u64| #[trigger] pt.tree@.contains_key(i) <==> (t.tree@.contains_key(i)
            && proof_covered(pt.leaves@, i as int, N as nat) && t.tree@[i]
            != t.empty_hashes@[height_of(i as int, N as nat) as int]),
        forall|i: u64| #[trigger] pt.tree@.contains_key(i) ==> pt.tree@[i] == t.tree@[i],
        node_at(x, lx, N as nat),
        lx < N,
        0 <= x <= u64::MAX,
        proof_covered(pt.leaves@, x, N as nat),
    ensures
        stored_or(pt.tree@, x, pt.empty_hashes@[lx as int]) == node_hash(
            h,
            a,
            d,
            N as nat,
            x,
            lx,
        ),
{
    let nn = N as nat;
    lemma_height_of(x, lx, nn);
    lemma_tree_stored(h, t.tree@, t.empty_hashes@, a, d, nn, x, lx);
    if pt.tree@.contains_key(x as u64) {
        assert(pt.tree@[x as u64] == t.tree@[x as u64]);
    } else {
        if t.tree@.contains_key(x as u64) {
            // not carried over, so the stored digest equals the empty hash
            assert(t.tree@[x as u64] == t.empty_hashes@[lx as int]);
        }
    }
}

/// One consistency check of `verify` on a partial tree extracted by
/// `batch_prove` over an inserted slot.
#[verifier::rlimit(100)]
proof fn lemma_pt_check_at<F: FieldExt, H: FieldHasher<F>, const N: usize>(
    t: SparseMerkleTree<F, H, N>,
    pt: PartialTree<F, N>,
    h: H,
    a: Map<u64, F>,
    d: F,
    k: u64,
    l: nat,
)
    requires
        1 <= N <= 63,
        hasher_total::<F, H>(h),
        t.empty_hashes@.len() == N,
        forall|ll: int|
            0 <= ll < N ==> t.empty_hashes@[ll] == empty_hash_at(h, d, ll as nat),
        forall|i: u64| #[trigger] t.tree@.contains_key(i) ==> t.tree@[i] == node_hash(
            h,
            a,
            d,
            N as nat,
            i as int,
            height_of(i as int, N as nat),
        ),
        forall|kk: u64, s: nat|
            #![trigger a.contains_key(kk), anc_node(kk, s, N as nat)]
            a.contains_key(kk) && s <= N ==> t.tree@.contains_key(
                anc_node(kk, s, N as nat) as u64,
            ),
        forall|kk: u64| #[trigger] a.contains_key(kk) ==> kk < pow2(N as nat),
        pt.empty_hashes@ == t.empty_hashes@,
        forall|i: u64| #[trigger] pt.tree@.contains_key(i) <==> (t.tree@.contains_key(i)
            && proof_covered(pt.leaves@, i as int, N as nat) && t.tree@[i]
            != t.empty_hashes@[height_of(i as int, N as nat) as int]),
        forall|i: u64| #[trigger] pt.tree@.contains_key(i) ==> pt.tree@[i] == t.tree@[i],
        pt.leaves@.contains(k),
        a.contains_key(k),
        l < (N - 1) as nat,
    ensures
        pt.check_at(h, k, l),
{
    let nn = N as nat;
    let j = choose|j: int| 0 <= j < pt.leaves@.len() && pt.leaves@[j] == k;
    assert(k < pow2(nn));
    lemma_anc_bounds(k, l, nn);
    lemma_anc_bounds(k, (l + 1) as nat, nn);
    lemma_anc_root(k as int, l, nn);
    let c = anc_node(k, l, nn);
    let sb = sp_sibling(c);
    let p = anc_node(k, (l + 1) as nat, nn);
    lemma_sibling_at(c, l, nn);
    lemma_parent_child(c);
    lemma_child_at(p, (l + 1) as nat, nn);
    lemma_pow2_le((nn - l) as nat, 63);
    vstd::arithmetic::power2::lemma2_to64_rest();
    vstd::arithmetic::power2::lemma_pow2_unfold(64);
    assert(walk_covered(k, nn, c, nn)) by {
        assert(l < nn && (c == anc_node(k, l, nn) || c == sp_sibling(anc_node(k, l, nn))));
    }
    assert(walk_covered(k, nn, sb, nn)) by {
        assert(l < nn && (sb == anc_node(k, l, nn) || sb == sp_sibling(anc_node(k, l, nn))));
    }
    assert(walk_covered(k, nn, p, nn)) by {
        assert(l + 1 < nn && (p == anc_node(k, (l + 1) as nat, nn) || p == sp_sibling(
            anc_node(k, (l + 1) as nat, nn),
        )));
    }
    assert(proof_covered(pt.leaves@, c, nn)) by {
        assert(0 <= j < pt.leaves@.len() && walk_covered(pt.leaves@[j], nn, c, nn));
    }
    assert(proof_covered(pt.leaves@, sb, nn)) by {
        assert(0 <= j < pt.leaves@.len() && walk_covered(pt.leaves@[j], nn, sb, nn));
    }
    assert(proof_covered(pt.leaves@, p, nn)) by {
        assert(0 <= j < pt.leaves@.len() && walk_covered(pt.leaves@[j], nn, p, nn));
    }
    lemma_pt_stored(t, pt, h, a, d, c, l);
    lemma_pt_stored(t, pt, h, a, d, sb, l);
    lemma_pt_stored(t, pt, h, a, d, p, (l + 1) as nat);
    assert(h.spec_hash(
        node_hash(h, a, d, nn, sp_left(p), l),
        node_hash(h, a, d, nn, sp_right(p), l),
    ) == node_hash(h, a, d, nn, p, (l + 1) as nat));
}

/// The root edge of a partial tree extracted by `batch_prove` over at least
/// one inserted slot: the claimed root is the hash of the root's two stored
/// (or imputed) children.
#[verifier::rlimit(100)]
proof fn lemma_pt_root_edge<F: FieldExt, H: FieldHasher<F>, const N: usize>(
    t: SparseMerkleTree<F, H, N>,
    pt: PartialTree<F, N>,
    h: H,
    a: Map<u64, F>,
    d: F,
    k: u64,
)
    requires
        1 <= N <= 63,
        hasher_total::<F, H>(h),
        t.empty_hashes@.len() == N,
        forall|ll: int|
            0 <= ll < N ==> t.empty_hashes@[ll] == empty_hash_at(h, d, ll as nat),
        forall|i: u64| #[trigger] t.tree@.contains_key(i) ==> t.tree@[i] == node_hash(
            h,
            a,
            d,
            N as nat,
            i as int,
            height_of(i as int, N as nat),
        ),
        forall|kk: u64, s: nat|
            #![trigger a.contains_key(kk), anc_node(kk, s, N as nat)]
            a.contains_key(kk) && s <= N ==> t.tree@.contains_key(
                anc_node(kk, s, N as nat) as u64,
            ),
        forall|kk: u64| #[trigger] a.contains_key(kk) ==> kk < pow2(N as nat),
        pt.empty_hashes@ == t.empty_hashes@,
        pt.root == t.spec_root(),
        forall|i: u64| #[trigger] pt.tree@.contains_key(i) <==> (t.tree@.contains_key(i)
            && proof_covered(pt.leaves@, i as int, N as nat) && t.tree@[i]
            != t.empty_hashes@[height_of(i as int, N as nat) as int]),
        forall|i: u64| #[trigger] pt.tree@.contains_key(i) ==> pt.tree@[i] == t.tree@[i],
        pt.leaves@.contains(k),
        a.contains_key(k),
    ensures
        pt.spec_root_edge(h),
{
    let nn = N as nat;
    let j = choose|j: int| 0 <= j < pt.leaves@.len() && pt.leaves@[j] == k;
    assert(k < pow2(nn));
    lemma_anc_bounds(k, (nn - 1) as nat, nn);
    lemma_anc_root(k as int, (nn - 1) as nat, nn);
    vstd::arithmetic::power2::lemma2_to64();
    let c = anc_node(k, (nn - 1) as nat, nn);
    assert(1 <= c < 3);
    lemma_sibling_at(c, (nn - 1) as nat, nn);
    let sb = sp_sibling(c);
    assert(c == 1 ==> sb == 2);
    assert(c == 2 ==> sb == 1);
    assert(walk_covered(k, nn, c, nn)) by {
        assert(((nn - 1) as nat) < nn && c == anc_node(k, (nn - 1) as nat, nn));
    }
    assert(walk_covered(k, nn, sb, nn)) by {
        assert(((nn - 1) as nat) < nn && sb == sp_sibling(anc_node(k, (nn - 1) as nat, nn)));
    }
    assert(proof_covered(pt.leaves@, 1, nn)) by {
        assert(0 <= j < pt.leaves@.len() && walk_covered(pt.leaves@[j], nn, 1, nn));
    }
    assert(proof_covered(pt.leaves@, 2, nn)) by {
        assert(0 <= j < pt.leaves@.len() && walk_covered(pt.leaves@[j], nn, 2, nn));
    }
    assert(node_at(1, (nn - 1) as nat, nn) && node_at(2, (nn - 1) as nat, nn));
    lemma_pt_stored(t, pt, h, a, d, 1, (nn - 1) as nat);
    lemma_pt_stored(t, pt, h, a, d, 2, (nn - 1) as nat);
    // the root node is materialized, so the claimed root is its digest
    lemma_anc_root(k as int, nn, nn);
    assert(t.tree@.contains_key(anc_node(k, nn, nn) as u64));
    assert(height_of(0, nn) == nn);
    assert(pt.root == node_hash(h, a, d, nn, 0, nn));
    assert(node_hash(h, a, d, nn, 0, nn) == h.spec_hash(
        node_hash(h, a, d, nn, sp_left(0), (nn - 1) as nat),
        node_hash(h, a, d, nn, sp_right(0), (nn - 1) as nat),
    ));
}

/// Forgery resistance at the root edge: replacing the claimed root of a
/// proof whose root edge holds with any different value breaks the root
/// edge, so strict verification of a non-empty attestation rejects it with
/// a hash mismatch.
pub proof fn lemma_flipped_root_fails<F: FieldExt, H: FieldHasher<F>, const N: usize>(
    pt: PartialTree<F, N>,
    pt2: PartialTree<F, N>,
    h: H,
)
    requires
        pt.spec_root_edge(h),
        pt2.tree@ == pt.tree@,
        pt2.empty_hashes@ == pt.empty_hashes@,
        pt2.root != pt.root,
    ensures
        !pt2.spec_root_edge(h),
{
}

/// Partial round-trip: a partial tree extracted by `batch_prove` over
/// inserted slots passes every consistency check of `verify`, and its root
/// is the tree's root.
pub proof fn lemma_batch_prove_verifies<F: FieldExt, H: FieldHasher<F>, const N: usize>(
    t: SparseMerkleTree<F, H, N>,
    pt: PartialTree<F, N>,
    h: H,
)
    requires
        t.wf(h),
        hasher_total::<F, H>(h),
        pt.empty_hashes@ == t.empty_hashes@,
        pt.root == t.spec_root(),
        forall|i: u64| #[trigger] pt.tree@.contains_key(i) <==> (t.tree@.contains_key(i)
            && proof_covered(pt.leaves@, i as int, N as nat) && t.tree@[i]
            != t.empty_hashes@[height_of(i as int, N as nat) as int]),
        forall|i: u64| #[trigger] pt.tree@.contains_key(i) ==> pt.tree@[i] == t.tree@[i],
        forall|j: int|
            0 <= j < pt.leaves@.len() ==> t.assignment().contains_key(#[trigger] pt.leaves@[j]),
    ensures
        pt.spec_checks(h),
        pt.root == t.spec_root(),
        pt.leaves@.len() > 0 ==> pt.spec_root_edge(h),
{
    assert forall|j: int, l: nat|
        0 <= j < pt.leaves@.len() && l < (N - 1) as nat implies #[trigger] pt.check_at(
        h,
        pt.leaves@[j],
        l,
    ) by {
        assert(pt.leaves@.contains(pt.leaves@[j]));
        lemma_pt_check_at(t, pt, h, t.assignment(), t.default_leaf(), pt.leaves@[j], l);
    }
    if pt.leaves@.len() > 0 {
        assert(pt.leaves@.contains(pt.leaves@[0]));
        lemma_pt_root_edge(t, pt, h, t.assignment(), t.default_leaf(), pt.leaves@[0]);
    }
}

/// Forgery resistance, relative to the hash: replacing the digest of any
/// materialized node that takes part in some consistency check of `verify`
/// with a different value makes that check fail, provided the two-to-one
/// hash is injective on the pairs involved. The node must either sit on the
/// two bottom levels of a check (a path node or its sibling at some level
/// `l` below the top) or be the checked parent itself; a materialized node
/// feeding only the never-checked root hash is not covered.
#[verifier::rlimit(100)]
pub proof fn lemma_flipped_node_fails<F: FieldExt, H: FieldHasher<F>, const N: usize>(
    pt: PartialTree<F, N>,
    pt2: PartialTree<F, N>,
    h: H,
    i: u64,
    v2: F,
    k: u64,
    l: nat,
)
    requires
        1 <= N <= 63,
        pt.empty_hashes@.len() == N,
        pt.spec_checks(h),
        forall|a: F, b: F, c: F, d: F|
            #[trigger] h.spec_hash(a, b) == #[trigger] h.spec_hash(c, d) ==> a == c && b == d,
        pt.tree@.contains_key(i),
        v2 != pt.tree@[i],
        pt2.tree@ == pt.tree@.insert(i, v2),
        pt2.leaves@ == pt.leaves@,
        pt2.empty_hashes@ == pt.empty_hashes@,
        pt.leaves@.contains(k),
        (k as int) < pow2(N as nat),
        l < (N - 1) as nat,
        i as int == anc_node(k, (l + 1) as nat, N as nat) || i as int == sp_left(
            anc_node(k, (l + 1) as nat, N as nat),
        ) || i as int == sp_right(anc_node(k, (l + 1) as nat, N as nat)),
    ensures
        !pt2.spec_checks(h),
{
    let nn = N as nat;
    let j = choose|j: int| 0 <= j < pt.leaves@.len() && pt.leaves@[j] == k;
    lemma_anc_bounds(k, (l + 1) as nat, nn);
    let p = anc_node(k, (l + 1) as nat, nn);
    lemma_child_at(p, (l + 1) as nat, nn);
    lemma_pow2_le((nn - l) as nat, 63);
    vstd::arithmetic::power2::lemma2_to64_rest();
    vstd::arithmetic::power2::lemma_pow2_unfold(64);
    let el = pt.empty_hashes@[l as int];
    let ep = pt.empty_hashes@[l as int + 1];
    let lv = stored_or(pt.tree@, sp_left(p), el);
    let rv = stored_or(pt.tree@, sp_right(p), el);
    let got = stored_or(pt.tree@, p, ep);
    assert(pt.check_at(h, k, l)) by {
        assert(0 <= j < pt.leaves@.len() && pt.leaves@[j] == k);
    }
    let lv2 = stored_or(pt2.tree@, sp_left(p), el);
    let rv2 = stored_or(pt2.tree@, sp_right(p), el);
    let got2 = stored_or(pt2.tree@, p, ep);
    if pt2.check_at(h, k, l) {
        if i as int == p {
            assert(lv2 == lv && rv2 == rv);
            assert(got2 == v2);
            assert(h.spec_hash(lv, rv) == got);
            assert(false);
        } else if i as int == sp_left(p) {
            assert(rv2 == rv && got2 == got);
            assert(lv2 == v2);
            assert(h.spec_hash(v2, rv) == h.spec_hash(lv, rv));
            assert(v2 == lv);
            assert(lv == pt.tree@[i]);
            assert(false);
        } else {
            assert(lv2 == lv && got2 == got);
            assert(rv2 == v2);
            assert(h.spec_hash(lv, v2) == h.spec_hash(lv, rv));
            assert(v2 == rv);
            assert(rv == pt.tree@[i]);
            assert(false);
        }
    }
    assert(!pt2.spec_checks(h)) by {
        assert(0 <= j < pt2.leaves@.len() && pt2.leaves@[j] == k);
        assert(!pt2.check_at(h, pt2.leaves@[j], l));
    }
}

} // verus!

