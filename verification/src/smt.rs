//! The sparse Merkle tree core.
//!
//! A tree of height `N` has `2^N` leaf slots. Slots that were never inserted
//! hold the default leaf implicitly: the `empty_hashes` ladder stores, for
//! each level, the digest of an all-default subtree of that height, so the
//! node map only materializes inserted leaves and their ancestors.

use vstd::prelude::*;

verus! {

use std::collections::BTreeMap;
use std::marker::PhantomData;
use vstd::arithmetic::power2::pow2;
use crate::hasher::{FieldExt, FieldHasher, MerkleError, hasher_total};
use crate::index::{
    sp_parent, sp_left, sp_right, sp_sibling, sp_leaf, anc, node_at, height_of,
    lemma_height_of, lemma_parent_child, lemma_anc_range, lemma_anc_root,
    lemma_node_at_unique, lemma_child_at, lemma_sibling_at, lemma_pow2_le,
    is_root, left_child, right_child, is_left_child, sibling, parent,
    convert_index_to_last_level,
};

use vstd::map::*;
use vstd::std_specs::iter::IteratorSpec;

broadcast use vstd::laws_cmp::group_laws_cmp;

/// The node index of the ancestor of leaf slot `k` that lies `s` levels up,
/// in a tree of height `n`.
pub open spec fn anc_node(k: u64, s: nat, n: nat) -> int {
    anc(sp_leaf(k as int, n), s)
}

/// The digest of an all-default subtree of height `ht`.
pub open spec fn empty_hash_at<F: FieldExt, H: FieldHasher<F>>(h: H, d: F, ht: nat) -> F
    decreases ht,
{
    if ht == 0 {
        d
    } else {
        h.spec_hash(
            empty_hash_at(h, d, (ht - 1) as nat),
            empty_hash_at(h, d, (ht - 1) as nat),
        )
    }
}

/// The digest of the subtree rooted at node `i` (of height `ht`, in a tree
/// of height `n`) under leaf assignment `a` with default leaf `d`.
pub open spec fn node_hash<F: FieldExt, H: FieldHasher<F>>(
    h: H,
    a: Map<u64, F>,
    d: F,
    n: nat,
    i: int,
    ht: nat,
) -> F
    decreases ht,
{
    if ht == 0 {
        let k = i - (pow2(n) - 1);
        if 0 <= k < pow2(n) && a.contains_key(k as u64) {
            a[k as u64]
        } else {
            d
        }
    } else {
        h.spec_hash(
            node_hash(h, a, d, n, sp_left(i), (ht - 1) as nat),
            node_hash(h, a, d, n, sp_right(i), (ht - 1) as nat),
        )
    }
}

/// Whether leaf slot `k` lies in the subtree rooted at the height-`ht`
/// node `i`.
pub open spec fn slot_under(k: int, i: int, ht: nat, n: nat) -> bool {
    anc(sp_leaf(k, n), ht) == i
}

/// A subtree holding no assigned slot hashes to the canonical empty digest
/// of its height.
pub proof fn lemma_node_hash_empty<F: FieldExt, H: FieldHasher<F>>(
    h: H,
    a: Map<u64, F>,
    d: F,
    n: nat,
    i: int,
    ht: nat,
)
    requires
        node_at(i, ht, n),
        forall|k: int|
            0 <= k < pow2(n) && #[trigger] slot_under(k, i, ht, n) ==> !a.contains_key(k as u64),
    ensures
        node_hash(h, a, d, n, i, ht) == empty_hash_at(h, d, ht),
    decreases ht,
{
    if ht == 0 {
        let k = i - (pow2(n) - 1);
        assert(0 <= k < pow2(n));
        assert(slot_under(k, i, 0, n));
    } else {
        lemma_child_at(i, ht, n);
        assert forall|k: int|
            0 <= k < pow2(n) && #[trigger] slot_under(k, sp_left(i), (ht - 1) as nat, n)
            implies !a.contains_key(k as u64) by {
            assert(anc(sp_leaf(k, n), ht) == sp_parent(anc(sp_leaf(k, n), (ht - 1) as nat)));
            assert(slot_under(k, i, ht, n));
        }
        assert forall|k: int|
            0 <= k < pow2(n) && #[trigger] slot_under(k, sp_right(i), (ht - 1) as nat, n)
            implies !a.contains_key(k as u64) by {
            assert(slot_under(k, i, ht, n));
        }
        lemma_node_hash_empty(h, a, d, n, sp_left(i), (ht - 1) as nat);
        lemma_node_hash_empty(h, a, d, n, sp_right(i), (ht - 1) as nat);
    }
}

/// The digest of a subtree depends only on the assignment restricted to the
/// slots under it.
pub proof fn lemma_node_hash_agree<F: FieldExt, H: FieldHasher<F>>(
    h: H,
    a1: Map<u64, F>,
    a2: Map<u64, F>,
    d: F,
    n: nat,
    i: int,
    ht: nat,
)
    requires
        node_at(i, ht, n),
        forall|k: int|
            0 <= k < pow2(n) && #[trigger] slot_under(k, i, ht, n) ==> (a1.contains_key(k as u64)
                <==> a2.contains_key(k as u64)) && (a1.contains_key(k as u64)
                ==> a1[k as u64] == a2[k as u64]),
    ensures
        node_hash(h, a1, d, n, i, ht) == node_hash(h, a2, d, n, i, ht),
    decreases ht,
{
    if ht == 0 {
        let k = i - (pow2(n) - 1);
        assert(slot_under(k, i, 0, n));
    } else {
        lemma_child_at(i, ht, n);
        assert forall|k: int|
            0 <= k < pow2(n) && #[trigger] slot_under(k, sp_left(i), (ht - 1) as nat, n)
            implies (a1.contains_key(k as u64) <==> a2.contains_key(k as u64)) && (
            a1.contains_key(k as u64) ==> a1[k as u64] == a2[k as u64]) by {
            assert(slot_under(k, i, ht, n));
        }
        assert forall|k: int|
            0 <= k < pow2(n) && #[trigger] slot_under(k, sp_right(i), (ht - 1) as nat, n)
            implies (a1.contains_key(k as u64) <==> a2.contains_key(k as u64)) && (
            a1.contains_key(k as u64) ==> a1[k as u64] == a2[k as u64]) by {
            assert(slot_under(k, i, ht, n));
        }
        lemma_node_hash_agree(h, a1, a2, d, n, sp_left(i), (ht - 1) as nat);
        lemma_node_hash_agree(h, a1, a2, d, n, sp_right(i), (ht - 1) as nat);
    }
}

/// Ancestors of an in-range leaf slot are valid nodes and fit in `u64`.
pub proof fn lemma_anc_bounds(k: u64, s: nat, n: nat)
    requires
        (k as int) < pow2(n),
        s <= n,
        n <= 63,
    ensures
        node_at(anc_node(k, s, n), s, n),
        0 <= anc_node(k, s, n) <= u64::MAX,
        0 <= sp_leaf(k as int, n) <= u64::MAX,
{
    lemma_anc_range(k as int, s, n);
    lemma_pow2_le((n - s) as nat, 63);
    lemma_pow2_le(n, 63);
    vstd::arithmetic::power2::lemma2_to64_rest();
    vstd::arithmetic::power2::lemma_pow2_unfold(64);
    vstd::arithmetic::power2::lemma_pow2_pos((n - s) as nat);
}

/// A node valid at one height is not valid at another.
pub proof fn lemma_node_at_unique_wrap(i: int, h1: nat, h2: nat, n: nat)
    requires
        node_at(i, h1, n),
        h1 != h2,
    ensures
        !node_at(i, h2, n),
{
    if node_at(i, h2, n) {
        lemma_node_at_unique(i, h1, h2, n);
    }
}

/// During the bottom-up walk of a single-leaf insertion, the two children of
/// the node about to be recomputed carry (stored or imputed) exactly their
/// subtree digests under the new assignment.
#[verifier::rlimit(50)]
proof fn lemma_child_value<F: FieldExt, H: FieldHasher<F>>(
    h: H,
    t_old: Map<u64, F>,
    t_cur: Map<u64, F>,
    a_old: Map<u64, F>,
    a_new: Map<u64, F>,
    d: F,
    n: nat,
    k: u64,
    v: F,
    level: nat,
    c: int,
)
    requires
        1 <= n <= 63,
        (k as int) < pow2(n),
        level < n,
        a_new == a_old.insert(k, v),
        c == sp_left(anc_node(k, (level + 1) as nat, n)) || c == sp_right(
            anc_node(k, (level + 1) as nat, n),
        ),
        forall|i: u64| #[trigger] t_old.contains_key(i) ==> exists|kk: u64, s: nat|
            #![trigger anc_node(kk, s, n)]
            kk < pow2(n) && s <= n && anc_node(kk, s, n) == i as int && a_old.contains_key(kk),
        forall|kk: u64, s: nat|
            #![trigger a_old.contains_key(kk), anc_node(kk, s, n)]
            a_old.contains_key(kk) && s <= n ==> t_old.contains_key(anc_node(kk, s, n) as u64),
        forall|i: u64| #[trigger] t_old.contains_key(i) ==> t_old[i] == node_hash(
            h,
            a_old,
            d,
            n,
            i as int,
            height_of(i as int, n),
        ),
        forall|j: u64| #[trigger] t_cur.contains_key(j) <==> (t_old.contains_key(j) || exists|s: nat|
            #![trigger anc_node(k, s, n)]
            s <= level && anc_node(k, s, n) == j as int),
        forall|j: u64|
            #[trigger] t_cur.contains_key(j) && !(exists|s: nat|
                #![trigger anc_node(k, s, n)]
                s <= level && anc_node(k, s, n) == j as int) ==> t_cur[j] == t_old[j],
        forall|s: nat| #![trigger anc_node(k, s, n)] s <= level ==> {
            &&& t_cur.contains_key(anc_node(k, s, n) as u64)
            &&& t_cur[anc_node(k, s, n) as u64] == node_hash(h, a_new, d, n, anc_node(k, s, n), s)
        },
    ensures
        stored_or(t_cur, c, empty_hash_at(h, d, level)) == node_hash(h, a_new, d, n, c, level),
{
    let leafn = sp_leaf(k as int, n);
    let p = anc_node(k, (level + 1) as nat, n);
    let i = anc_node(k, level, n);
    lemma_anc_bounds(k, level, n);
    lemma_anc_bounds(k, (level + 1) as nat, n);
    lemma_anc_root(k as int, level, n);
    lemma_child_at(p, (level + 1) as nat, n);
    assert(p == sp_parent(i));
    lemma_parent_child(i);
    assert(c == i || c == sp_sibling(i));
    assert(node_at(c, level, n));
    lemma_pow2_le((n - level) as nat, 63);
    vstd::arithmetic::power2::lemma2_to64_rest();
    vstd::arithmetic::power2::lemma_pow2_unfold(64);
    assert(0 <= c <= u64::MAX);
    if c == i {
        assert(t_cur.contains_key(c as u64) && t_cur[c as u64] == node_hash(
            h,
            a_new,
            d,
            n,
            c,
            level,
        ));
    } else {
        assert(c != i);
        assert forall|s: nat| s <= level implies #[trigger] anc_node(k, s, n) != c by {
            if s < level {
                if anc_node(k, s, n) == c {
                    lemma_anc_bounds(k, s, n);
                    lemma_node_at_unique(c, s, level, n);
                }
            }
        }
        // no slot of the new assignment lies under the sibling subtree unless
        // it already lay there, and the inserted slot `k` does not
        if t_cur.contains_key(c as u64) {
            assert(t_old.contains_key(c as u64));
            assert(t_cur[c as u64] == t_old[c as u64]);
            lemma_height_of(c, level, n);
            assert(t_old[c as u64] == node_hash(h, a_old, d, n, c, level));
            assert forall|kk: int|
                0 <= kk < pow2(n) && #[trigger] slot_under(kk, c, level, n) implies (
                a_old.contains_key(kk as u64) <==> a_new.contains_key(kk as u64)) && (
            a_old.contains_key(kk as u64) ==> a_old[kk as u64] == a_new[kk as u64]) by {
                if kk == k as int {
                    assert(anc_node(k, level, n) == c);
                    assert(false);
                }
            }
            lemma_node_hash_agree(h, a_old, a_new, d, n, c, level);
        } else {
            assert forall|kk: int|
                0 <= kk < pow2(n) && #[trigger] slot_under(kk, c, level, n) implies
                !a_new.contains_key(kk as u64) by {
                if kk == k as int {
                    assert(anc_node(k, level, n) == c);
                    assert(false);
                }
                if a_new.contains_key(kk as u64) {
                    assert(a_old.contains_key(kk as u64));
                    lemma_anc_bounds(kk as u64, level, n);
                    assert(anc_node(kk as u64, level, n) == c);
                    assert(t_old.contains_key(c as u64));
                    assert(t_cur.contains_key(c as u64));
                    assert(false);
                }
            }
            lemma_node_hash_empty(h, a_new, d, n, c, level);
        }
    }
}

/// One step of the bottom-up walk of a single-leaf insertion: writing the
/// recomputed parent keeps the walk's bookkeeping intact one level up.
#[verifier::rlimit(100)]
proof fn lemma_insert_step<F: FieldExt, H: FieldHasher<F>>(
    h: H,
    t_old: Map<u64, F>,
    t_pre: Map<u64, F>,
    t_new: Map<u64, F>,
    a_new: Map<u64, F>,
    d: F,
    n: nat,
    k: u64,
    level: nat,
    pu: u64,
    hv: F,
)
    requires
        1 <= n <= 63,
        (k as int) < pow2(n),
        level < n,
        pu as int == anc_node(k, (level + 1) as nat, n),
        hv == node_hash(h, a_new, d, n, pu as int, (level + 1) as nat),
        t_new == t_pre.insert(pu, hv),
        forall|j: u64| #[trigger] t_pre.contains_key(j) <==> (t_old.contains_key(j) || exists|s: nat|
            #![trigger anc_node(k, s, n)]
            s <= level && anc_node(k, s, n) == j as int),
        forall|j: u64|
            #[trigger] t_pre.contains_key(j) && !(exists|s: nat|
                #![trigger anc_node(k, s, n)]
                s <= level && anc_node(k, s, n) == j as int) ==> t_pre[j] == t_old[j],
        forall|s: nat| #![trigger anc_node(k, s, n)] s <= level ==> {
            &&& t_pre.contains_key(anc_node(k, s, n) as u64)
            &&& t_pre[anc_node(k, s, n) as u64] == node_hash(h, a_new, d, n, anc_node(k, s, n), s)
        },
    ensures
        forall|j: u64| #[trigger] t_new.contains_key(j) <==> (t_old.contains_key(j) || exists|s: nat|
            #![trigger anc_node(k, s, n)]
            s <= level + 1 && anc_node(k, s, n) == j as int),
        forall|j: u64|
            #[trigger] t_new.contains_key(j) && !(exists|s: nat|
                #![trigger anc_node(k, s, n)]
                s <= level + 1 && anc_node(k, s, n) == j as int) ==> t_new[j] == t_old[j],
        forall|s: nat| #![trigger anc_node(k, s, n)] s <= level + 1 ==> {
            &&& t_new.contains_key(anc_node(k, s, n) as u64)
            &&& t_new[anc_node(k, s, n) as u64] == node_hash(h, a_new, d, n, anc_node(k, s, n), s)
        },
{
    lemma_anc_bounds(k, (level + 1) as nat, n);
    // any ancestor nearer the leaf than the parent sits at a lower height
    assert forall|s: nat| s <= level implies #[trigger] anc_node(k, s, n) != pu as int by {
        lemma_anc_bounds(k, s, n);
        lemma_node_at_unique_wrap(anc_node(k, s, n), s, (level + 1) as nat, n);
    }
    assert forall|j: u64| #[trigger] t_new.contains_key(j) implies (t_old.contains_key(j)
        || exists|s: nat| #![trigger anc_node(k, s, n)] s <= level + 1 && anc_node(k, s, n)
        == j as int) by {
        if j == pu {
            assert(anc_node(k, (level + 1) as nat, n) == j as int);
        } else {
            assert(t_pre.contains_key(j));
        }
    }
    assert forall|j: u64| (t_old.contains_key(j) || exists|s: nat|
        #![trigger anc_node(k, s, n)]
        s <= level + 1 && anc_node(k, s, n) == j as int) implies #[trigger] t_new.contains_key(
        j,
    ) by {
        if t_old.contains_key(j) {
            assert(t_pre.contains_key(j));
        } else {
            let s = choose|s: nat|
                #![trigger anc_node(k, s, n)]
                s <= level + 1 && anc_node(k, s, n) == j as int;
            if s <= level {
                assert(t_pre.contains_key(anc_node(k, s, n) as u64));
                assert(anc_node(k, s, n) as u64 == j);
            } else {
                assert(j == pu);
            }
        }
    }
    assert forall|s: nat| #![trigger anc_node(k, s, n)] s <= level + 1 implies {
        &&& t_new.contains_key(anc_node(k, s, n) as u64)
        &&& t_new[anc_node(k, s, n) as u64] == node_hash(h, a_new, d, n, anc_node(k, s, n), s)
    } by {
        lemma_anc_bounds(k, s, n);
        if s <= level {
            assert(anc_node(k, s, n) != pu as int);
            assert(anc_node(k, s, n) as u64 != pu);
        } else {
            assert(anc_node(k, s, n) == pu as int);
            assert(anc_node(k, s, n) as u64 == pu);
        }
    }
}

/// After the walk has reached the root, the bookkeeping of the single-leaf
/// insertion yields the tree well-formedness clauses for the new assignment.
#[verifier::rlimit(100)]
proof fn lemma_insert_finish<F: FieldExt, H: FieldHasher<F>>(
    h: H,
    t_old: Map<u64, F>,
    t_new: Map<u64, F>,
    a_old: Map<u64, F>,
    a_new: Map<u64, F>,
    d: F,
    n: nat,
    k: u64,
    v: F,
)
    requires
        1 <= n <= 63,
        (k as int) < pow2(n),
        a_new == a_old.insert(k, v),
        forall|kk: u64| #[trigger] a_old.contains_key(kk) ==> kk < pow2(n),
        forall|i: u64| #[trigger] t_old.contains_key(i) ==> exists|kk: u64, s: nat|
            #![trigger anc_node(kk, s, n)]
            kk < pow2(n) && s <= n && anc_node(kk, s, n) == i as int && a_old.contains_key(kk),
        forall|kk: u64, s: nat|
            #![trigger a_old.contains_key(kk), anc_node(kk, s, n)]
            a_old.contains_key(kk) && s <= n ==> t_old.contains_key(anc_node(kk, s, n) as u64),
        forall|i: u64| #[trigger] t_old.contains_key(i) ==> t_old[i] == node_hash(
            h,
            a_old,
            d,
            n,
            i as int,
            height_of(i as int, n),
        ),
        forall|j: u64| #[trigger] t_new.contains_key(j) <==> (t_old.contains_key(j) || exists|s: nat|
            #![trigger anc_node(k, s, n)]
            s <= n && anc_node(k, s, n) == j as int),
        forall|j: u64|
            #[trigger] t_new.contains_key(j) && !(exists|s: nat|
                #![trigger anc_node(k, s, n)]
                s <= n && anc_node(k, s, n) == j as int) ==> t_new[j] == t_old[j],
        forall|s: nat| #![trigger anc_node(k, s, n)] s <= n ==> {
            &&& t_new.contains_key(anc_node(k, s, n) as u64)
            &&& t_new[anc_node(k, s, n) as u64] == node_hash(h, a_new, d, n, anc_node(k, s, n), s)
        },
    ensures
        forall|j: u64| #[trigger] t_new.contains_key(j) ==> exists|kk: u64, s: nat|
            #![trigger anc_node(kk, s, n)]
            kk < pow2(n) && s <= n && anc_node(kk, s, n) == j as int && a_new.contains_key(kk),
        forall|kk: u64, s: nat|
            #![trigger a_new.contains_key(kk), anc_node(kk, s, n)]
            a_new.contains_key(kk) && s <= n ==> t_new.contains_key(anc_node(kk, s, n) as u64),
        forall|j: u64| #[trigger] t_new.contains_key(j) ==> t_new[j] == node_hash(
            h,
            a_new,
            d,
            n,
            j as int,
            height_of(j as int, n),
        ),
{
    assert forall|j: u64| #[trigger] t_new.contains_key(j) implies exists|kk: u64, s: nat|
        #![trigger anc_node(kk, s, n)]
        kk < pow2(n) && s <= n && anc_node(kk, s, n) == j as int && a_new.contains_key(kk) by {
        if t_old.contains_key(j) {
            let (kk, s) = choose|kk: u64, s: nat|
                #![trigger anc_node(kk, s, n)]
                kk < pow2(n) && s <= n && anc_node(kk, s, n) == j as int && a_old.contains_key(kk);
            assert(kk < pow2(n) && s <= n && anc_node(kk, s, n) == j as int
                && a_new.contains_key(kk));
        } else {
            let s = choose|s: nat|
                #![trigger anc_node(k, s, n)]
                s <= n && anc_node(k, s, n) == j as int;
            assert(k < pow2(n) && s <= n && anc_node(k, s, n) == j as int
                && a_new.contains_key(k));
        }
    }
    assert forall|kk: u64, s: nat|
        #![trigger a_new.contains_key(kk), anc_node(kk, s, n)]
        a_new.contains_key(kk) && s <= n implies t_new.contains_key(
        anc_node(kk, s, n) as u64,
    ) by {
        if kk != k {
            assert(a_old.contains_key(kk));
            assert(t_old.contains_key(anc_node(kk, s, n) as u64));
        }
    }
    assert forall|j: u64| #[trigger] t_new.contains_key(j) implies t_new[j] == node_hash(
        h,
        a_new,
        d,
        n,
        j as int,
        height_of(j as int, n),
    ) by {
        if exists|s: nat| #![trigger anc_node(k, s, n)] s <= n && anc_node(k, s, n) == j as int {
            let s = choose|s: nat|
                #![trigger anc_node(k, s, n)]
                s <= n && anc_node(k, s, n) == j as int;
            lemma_anc_bounds(k, s, n);
            lemma_height_of(j as int, s, n);
        } else {
            assert(t_new[j] == t_old[j]);
            let (kk, s) = choose|kk: u64, s: nat|
                #![trigger anc_node(kk, s, n)]
                kk < pow2(n) && s <= n && anc_node(kk, s, n) == j as int && a_old.contains_key(kk);
            lemma_anc_bounds(kk, s, n);
            lemma_height_of(j as int, s, n);
            assert forall|x: int|
                0 <= x < pow2(n) && #[trigger] slot_under(x, j as int, s, n) implies (
            a_old.contains_key(x as u64) <==> a_new.contains_key(x as u64)) && (
            a_old.contains_key(x as u64) ==> a_old[x as u64] == a_new[x as u64]) by {
                if x == k as int {
                    assert(anc_node(k, s, n) == j as int);
                    assert(false);
                }
            }
            lemma_node_hash_agree(h, a_old, a_new, d, n, j as int, s);
        }
    }
}

/// A batch of leaves keyed by `u32` slots, as a leaf assignment over `u64`
/// slots.
pub open spec fn lift_leaves<F>(m: Map<u32, F>) -> Map<u64, F> {
    Map::new(
        |k: u64| k <= u32::MAX as u64 && m.contains_key(k as u32),
        |k: u64| m[k as u32],
    )
}

/// The leaf assignment read off a sequence of leaves: slot `k` holds the
/// `k`-th element.
pub open spec fn seq_assignment<F>(s: Seq<F>) -> Map<u64, F> {
    Map::new(|k: u64| (k as int) < s.len(), |k: u64| s[k as int])
}

/// Whether `key` occurs among the slots of the first `upto` yielded batch
/// pairs.
spec fn batch_seen<F>(s: Seq<(&u32, &F)>, upto: int, key: u64) -> bool {
    exists|x: int| 0 <= x < upto && ((*#[trigger] s[x].0) as u64 == key)
}

/// Whether node `i` lies on the bottom `upto` levels of the path of leaf
/// slot `k`, or is the sibling of such a path node.
pub open spec fn walk_covered(k: u64, upto: nat, i: int, n: nat) -> bool {
    exists|l: nat|
        #![trigger anc_node(k, l, n)]
        l < upto && (i == anc_node(k, l, n) || i == sp_sibling(anc_node(k, l, n)))
}

/// Whether node `i` lies on the path of one of the attested slots (below the
/// root), or is the sibling of such a path node.
pub open spec fn proof_covered(leaves: Seq<u64>, i: int, n: nat) -> bool {
    exists|j: int| 0 <= j < leaves.len() && walk_covered(#[trigger] leaves[j], n, i, n)
}

/// Extending a walk by one level covers exactly the path node and sibling of
/// that level in addition.
pub proof fn lemma_walk_covered_step(k: u64, level: nat, n: nat)
    ensures
        forall|i: int|
            #![trigger walk_covered(k, (level + 1) as nat, i, n)]
            walk_covered(k, (level + 1) as nat, i, n) <==> (walk_covered(k, level, i, n) || i
                == anc_node(k, level, n) || i == sp_sibling(anc_node(k, level, n))),
{
    assert forall|i: int| walk_covered(k, (level + 1) as nat, i, n) implies (walk_covered(
        k,
        level,
        i,
        n,
    ) || i == anc_node(k, level, n) || i == sp_sibling(anc_node(k, level, n))) by {
        let l = choose|l: nat|
            #![trigger anc_node(k, l, n)]
            l < level + 1 && (i == anc_node(k, l, n) || i == sp_sibling(anc_node(k, l, n)));
        if l < level {
            assert(walk_covered(k, level, i, n));
        }
    }
    assert forall|i: int| (walk_covered(k, level, i, n) || i == anc_node(k, level, n) || i
        == sp_sibling(anc_node(k, level, n))) implies walk_covered(
        k,
        (level + 1) as nat,
        i,
        n,
    ) by {
        if walk_covered(k, level, i, n) {
            let l = choose|l: nat|
                #![trigger anc_node(k, l, n)]
                l < level && (i == anc_node(k, l, n) || i == sp_sibling(anc_node(k, l, n)));
            assert(l < level + 1 && (i == anc_node(k, l, n) || i == sp_sibling(anc_node(k, l, n))));
        } else {
            assert(level < level + 1 && (anc_node(k, level, n) == anc_node(k, level, n)));
        }
    }
}

/// Attesting one more slot covers exactly that slot's full walk in addition.
pub proof fn lemma_proof_covered_step(leaves: Seq<u64>, j: int, n: nat)
    requires
        0 <= j < leaves.len(),
    ensures
        forall|i: int|
            #![trigger proof_covered(leaves.take(j + 1), i, n)]
            proof_covered(leaves.take(j + 1), i, n) <==> (proof_covered(leaves.take(j), i, n)
                || walk_covered(leaves[j], n, i, n)),
{
    let s0 = leaves.take(j);
    let s1 = leaves.take(j + 1);
    assert forall|i: int| proof_covered(s1, i, n) implies (proof_covered(s0, i, n)
        || walk_covered(leaves[j], n, i, n)) by {
        let x = choose|x: int| 0 <= x < s1.len() && walk_covered(#[trigger] s1[x], n, i, n);
        if x < j {
            assert(s0[x] == s1[x]);
            assert(walk_covered(s0[x], n, i, n));
        } else {
            assert(s1[x] == leaves[j]);
        }
    }
    assert forall|i: int| (proof_covered(s0, i, n) || walk_covered(leaves[j], n, i, n)) implies
        proof_covered(s1, i, n) by {
        if proof_covered(s0, i, n) {
            let x = choose|x: int| 0 <= x < s0.len() && walk_covered(#[trigger] s0[x], n, i, n);
            assert(s1[x] == s0[x]);
            assert(0 <= x < s1.len() && walk_covered(s1[x], n, i, n));
        } else {
            assert(s1[j] == leaves[j]);
            assert(0 <= j < s1.len() && walk_covered(s1[j], n, i, n));
        }
    }
}

/// The stored digest of node `i`, or `dflt` if `i` is not materialized.
pub open spec fn stored_or<F>(m: Map<u64, F>, i: int, dflt: F) -> F {
    if 0 <= i <= u64::MAX && m.contains_key(i as u64) {
        m[i as u64]
    } else {
        dflt
    }
}

/// A path from a leaf to the root: one `(left, right)` pair per level, the
/// pair adjacent to the leaf first.
#[derive(Clone, Debug)]
pub struct Path<F: FieldExt, const N: usize> {
    /// The path represented as a sequence of sibling pairs.
    pub path: Vec<(F, F)>,
}

/// A single-leaf membership proof: a path, the claimed root, and the leaf.
#[derive(Clone, Debug)]
pub struct Proof<F: FieldExt, const N: usize> {
    pub path: Path<F, N>,
    pub root: F,
    pub leaf: F,
}

/// The sparse Merkle tree.
pub struct SparseMerkleTree<F: FieldExt, H: FieldHasher<F>, const N: usize> {
    /// A map from materialized node indices to digests.
    pub tree: BTreeMap<u64, F>,
    /// The ladder of empty-subtree digests, level 0 (the default leaf) first.
    pub empty_hashes: Vec<F>,
    /// The phantom hasher type used to build the merkle tree.
    pub marker: PhantomData<H>,
}

/// A compact multi-leaf proof: the materialized digests needed to recompute
/// the root over the attested leaf slots, plus the ladder and claimed root.
#[derive(Clone, Debug)]
pub struct PartialTree<F: FieldExt, const N: usize> {
    pub tree: BTreeMap<u64, F>,
    pub empty_hashes: Vec<F>,
    /// Attested leaf slots (map indices, not node indices).
    pub leaves: Vec<u64>,
    pub root: F,
}

/// A function to generate empty hashes with a given `default_leaf`.
///
/// Entry 0 is the default leaf itself; entry `l` is the hash of two copies
/// of entry `l - 1`, the digest of an all-default subtree of height `l`.
pub fn gen_empty_hashes<F: FieldExt, H: FieldHasher<F>, const N: usize>(
    hasher: &H,
    default_leaf: F,
) -> (r: Result<Vec<F>, MerkleError>)
    requires
        1 <= N <= 63,
    ensures
        r matches Ok(v) ==> {
            &&& v@.len() == N
            &&& forall|l: int|
                0 <= l < N ==> v@[l] == empty_hash_at(*hasher, default_leaf, l as nat)
            &&& v@[0] == default_leaf
            &&& forall|l: int| 1 <= l < N ==> #[trigger] v@[l] == hasher.spec_hash(v@[l - 1], v@[l - 1])
        },
        (r is Ok) <==> (forall|l: int|
            0 <= l < N - 1 ==> #[trigger] hasher.hash_ok(
                empty_hash_at(*hasher, default_leaf, l as nat),
                empty_hash_at(*hasher, default_leaf, l as nat),
            )),
        r matches Err(e) ==> e == MerkleError::HasherError,
{
    let mut out: Vec<F> = Vec::new();
    out.push(default_leaf);
    let mut l: usize = 1;
    while l < N
        invariant
            1 <= l <= N,
            N <= 63,
            out@.len() == l,
            forall|j: int| 0 <= j < l ==> out@[j] == empty_hash_at(*hasher, default_leaf, j as nat),
            forall|j: int|
                0 <= j < l - 1 ==> #[trigger] hasher.hash_ok(
                    empty_hash_at(*hasher, default_leaf, j as nat),
                    empty_hash_at(*hasher, default_leaf, j as nat),
                ),
        decreases N - l,
    {
        let prev = out[l - 1];
        match hasher.hash([prev, prev]) {
            Ok(v) => {
                proof {
                    assert(v == empty_hash_at(*hasher, default_leaf, l as nat));
                }
                out.push(v);
            },
            Err(e) => {
                return Err(e);
            },
        }
        l += 1;
    }
    Ok(out)
}

impl<F: FieldExt, H: FieldHasher<F>, const N: usize> SparseMerkleTree<F, H, N> {
    /// The leaf assignment this tree stores: slot to digest, for every
    /// materialized leaf.
    pub open spec fn assignment(self) -> Map<u64, F> {
        Map::new(
            |k: u64| k < pow2(N as nat) && self.tree@.contains_key(sp_leaf(k as int, N as nat) as u64),
            |k: u64| self.tree@[sp_leaf(k as int, N as nat) as u64],
        )
    }

    /// The default leaf the tree was built with (the bottom of the ladder).
    pub open spec fn default_leaf(self) -> F {
        self.empty_hashes@[0]
    }

    /// Well-formedness: the ladder is the canonical empty-hash ladder for
    /// the default leaf, and the node map holds exactly the materialized
    /// leaves and all their ancestors, each labelled with the digest of its
    /// subtree under the stored assignment.
    pub open spec fn wf(self, h: H) -> bool {
        &&& 1 <= N <= 63
        &&& self.empty_hashes@.len() == N
        &&& forall|l: int|
            0 <= l < N ==> self.empty_hashes@[l] == empty_hash_at(h, self.default_leaf(), l as nat)
        &&& forall|i: u64| #[trigger] self.tree@.contains_key(i) ==> exists|k: u64, s: nat|
                #![trigger anc_node(k, s, N as nat)]
                k < pow2(N as nat) && s <= N && anc_node(k, s, N as nat) == i as int
                && self.assignment().contains_key(k)
        &&& forall|k: u64, s: nat|
            #![trigger self.assignment().contains_key(k), anc_node(k, s, N as nat)]
            self.assignment().contains_key(k) && s <= N ==> self.tree@.contains_key(
                anc_node(k, s, N as nat) as u64,
            )
        &&& forall|i: u64| #[trigger] self.tree@.contains_key(i) ==> self.tree@[i] == node_hash(
                h,
                self.assignment(),
                self.default_leaf(),
                N as nat,
                i as int,
                height_of(i as int, N as nat),
            )
    }

    /// The root digest as `root()` reports it: the materialized root node,
    /// or the top of the ladder for a tree with no materialized nodes.
    pub open spec fn spec_root(self) -> F {
        if self.tree@.contains_key(0) {
            self.tree@[0]
        } else {
            self.empty_hashes@[N - 1]
        }
    }

    /// Inserts one leaf digest at slot `k` and recomputes the digests of all
    /// of the slot's ancestors, bottom-up.
    #[verifier::rlimit(100)]
    fn insert_one(&mut self, k: u64, v: F, hasher: &H) -> (r: Result<(), MerkleError>)
        requires
            old(self).wf(*hasher),
            (k as int) < pow2(N as nat),
        ensures
            r matches Ok(()) ==> {
                &&& final(self).wf(*hasher)
                &&& final(self).assignment() == old(self).assignment().insert(k, v)
                &&& final(self).empty_hashes@ == old(self).empty_hashes@
            },
            r matches Err(e) ==> e == MerkleError::HasherError,
            hasher_total::<F, H>(*hasher) ==> r is Ok,
    {
        let ghost a_old = old(self).assignment();
        let ghost a_new = old(self).assignment().insert(k, v);
        let ghost nn = N as nat;
        let ghost d = old(self).default_leaf();
        let node = convert_index_to_last_level(k, N);
        proof {
            lemma_anc_bounds(k, 0, nn);
        }
        self.tree.insert(node, v);
        proof {
            assert_maps_equal!(self.assignment(), a_new, kk => {
                if (kk as int) < pow2(nn) {
                    lemma_anc_bounds(kk, 0, nn);
                    if kk != k {
                        assert(sp_leaf(kk as int, nn) != sp_leaf(k as int, nn));
                    }
                }
            });
            // the fresh leaf digest is the subtree digest of its leaf node
            assert(self.tree@[node] == node_hash(*hasher, a_new, d, nn, node as int, 0)) by {
                assert(node as int - (pow2(nn) - 1) == k as int);
            }
        }
        let mut i = node;
        let mut level: usize = 0;
        while i != 0
            invariant
                old(self).wf(*hasher),
                (k as int) < pow2(nn),
                nn == N as nat,
                d == old(self).default_leaf(),
                a_old == old(self).assignment(),
                a_new == a_old.insert(k, v),
                self.empty_hashes@ == old(self).empty_hashes@,
                level <= N,
                i as int == anc_node(k, level as nat, nn),
                self.assignment() == a_new,
                forall|j: u64| #[trigger] self.tree@.contains_key(j) <==> (old(
                    self,
                ).tree@.contains_key(j) || exists|s: nat|
                    #![trigger anc_node(k, s, nn)]
                    s <= level && anc_node(k, s, nn) == j as int),
                forall|j: u64|
                    #[trigger] self.tree@.contains_key(j) && !(exists|s: nat|
                        #![trigger anc_node(k, s, nn)]
                        s <= level && anc_node(k, s, nn) == j as int) ==> self.tree@[j] == old(
                        self,
                    ).tree@[j],
                forall|s: nat| #![trigger anc_node(k, s, nn)] s <= level ==> {
                    &&& self.tree@.contains_key(anc_node(k, s, nn) as u64)
                    &&& self.tree@[anc_node(k, s, nn) as u64] == node_hash(
                        *hasher,
                        a_new,
                        d,
                        nn,
                        anc_node(k, s, nn),
                        s,
                    )
                },
            decreases N - level,
        {
            proof {
                lemma_anc_root(k as int, level as nat, nn);
                if level == N {
                    assert(i == 0);
                }
                assert(level < N);
                lemma_anc_bounds(k, level as nat, nn);
                lemma_anc_bounds(k, (level + 1) as nat, nn);
            }
            let p = match parent(i) {
                Some(x) => x,
                None => {
                    return Err(MerkleError::HasherError);
                },
            };
            proof {
                assert(p as int == anc_node(k, (level + 1) as nat, nn));
                lemma_child_at(p as int, (level + 1) as nat, nn);
                lemma_parent_child(i as int);
                // the children of p fit in u64
                lemma_pow2_le((nn - level) as nat, 63);
                vstd::arithmetic::power2::lemma_pow2_unfold((nn - level) as nat);
                vstd::arithmetic::power2::lemma2_to64_rest();
                vstd::arithmetic::power2::lemma_pow2_unfold(64);
            }
            let cl = left_child(p);
            let cr = right_child(p);
            let empty_h = self.empty_hashes[level];
            proof {
                assert(empty_h == empty_hash_at(*hasher, d, level as nat));
                assert forall|c: int| c == sp_left(p as int) || c == sp_right(p as int) implies
                    stored_or(self.tree@, c, empty_h) == node_hash(
                        *hasher,
                        a_new,
                        d,
                        nn,
                        c,
                        level as nat,
                    ) by {
                    lemma_child_value(
                        *hasher,
                        old(self).tree@,
                        self.tree@,
                        a_old,
                        a_new,
                        d,
                        nn,
                        k,
                        v,
                        level as nat,
                        c,
                    );
                }
            }
            let lv = match self.tree.get(&cl) {
                Some(x) => *x,
                None => empty_h,
            };
            let rv = match self.tree.get(&cr) {
                Some(x) => *x,
                None => empty_h,
            };
            proof {
                assert(lv == stored_or(self.tree@, sp_left(p as int), empty_h));
                assert(rv == stored_or(self.tree@, sp_right(p as int), empty_h));
            }
            let hv = match hasher.hash([lv, rv]) {
                Ok(x) => x,
                Err(e) => {
                    return Err(e);
                },
            };
            proof {
                assert(hv == node_hash(*hasher, a_new, d, nn, p as int, (level + 1) as nat));
            }
            let ghost pre = self.tree@;
            self.tree.insert(p, hv);
            proof {
                assert(self.tree@ == pre.insert(p, hv));
                // an internal node index is never a leaf node index, so the
                // assignment is unchanged
                assert((p as int) < pow2(nn) - 1) by {
                    vstd::arithmetic::power2::lemma_pow2_unfold((nn - level) as nat);
                    lemma_pow2_le((nn - level) as nat, nn);
                }
                assert_maps_equal!(self.assignment(), a_new, kk => {
                    if (kk as int) < pow2(nn) {
                        lemma_anc_bounds(kk, 0, nn);
                        assert(sp_leaf(kk as int, nn) != p as int);
                    }
                });
                lemma_insert_step(
                    *hasher,
                    old(self).tree@,
                    pre,
                    self.tree@,
                    a_new,
                    d,
                    nn,
                    k,
                    level as nat,
                    p,
                    hv,
                );
            }
            i = p;
            level += 1;
        }
        proof {
            lemma_anc_root(k as int, level as nat, nn);
            if level < N {
                assert(i as int >= 1);
            }
            assert(level == N);
            assert forall|kk: u64| #[trigger] a_old.contains_key(kk) implies kk < pow2(nn) by {}
            lemma_insert_finish(
                *hasher,
                old(self).tree@,
                self.tree@,
                a_old,
                a_new,
                d,
                nn,
                k,
                v,
            );
        }
        Ok(())
    }

    /// Takes a batch of leaf digests keyed by slot, inserts them into the
    /// tree (overwriting already-set slots), and recomputes all affected
    /// ancestors up to the root.
    #[verifier::rlimit(100)]
    pub fn insert_batch(&mut self, leaves: &BTreeMap<u32, F>, hasher: &H) -> (r: Result<
        (),
        MerkleError,
    >)
        requires
            old(self).wf(*hasher),
            forall|k: u32| #[trigger] leaves@.contains_key(k) ==> (k as int) < pow2(N as nat),
        ensures
            r matches Ok(()) ==> {
                &&& final(self).wf(*hasher)
                &&& final(self).assignment() == old(self).assignment().union_prefer_right(
                    lift_leaves(leaves@),
                )
                &&& final(self).empty_hashes@ == old(self).empty_hashes@
            },
            r matches Err(e) ==> e == MerkleError::HasherError,
            hasher_total::<F, H>(*hasher) ==> r is Ok,
    {
        let ghost a0 = old(self).assignment();
        let ghost s = vstd::std_specs::btree::spec_btree_map_iter(leaves).remaining();
        let ghost mut gidx: int = 0;
        for kv in it: leaves.iter()
            invariant
                old(self).wf(*hasher),
                forall|k: u32| #[trigger] leaves@.contains_key(k) ==> (k as int) < pow2(N as nat),
                self.wf(*hasher),
                self.empty_hashes@ == old(self).empty_hashes@,
                a0 == old(self).assignment(),
                it.seq() == s,
                gidx == it.index(),
                forall|j: int|
                    0 <= j < s.len() ==> leaves@.contains_key(*(#[trigger] s[j]).0) && *(s[j].1)
                        == leaves@[*(s[j].0)],
                forall|key: u64|
                    #[trigger] batch_seen(s, gidx, key) ==> {
                        &&& self.assignment().contains_key(key)
                        &&& key <= u32::MAX as u64
                        &&& leaves@.contains_key(key as u32)
                        &&& self.assignment()[key] == leaves@[key as u32]
                    },
                forall|key: u64|
                    !(#[trigger] batch_seen(s, gidx, key)) ==> (self.assignment().contains_key(key)
                        <==> a0.contains_key(key)) && (a0.contains_key(key)
                        ==> self.assignment()[key] == a0[key]),
        {
            let ghost idx0 = it.index();
            proof {
                assert(kv == s[idx0]);
                assert(leaves@.contains_key(*kv.0));
            }
            let k32 = *kv.0;
            let vf = *kv.1;
            match self.insert_one(k32 as u64, vf, hasher) {
                Ok(()) => {},
                Err(e) => {
                    return Err(e);
                },
            }
            proof {
                assert forall|key: u64| #[trigger] batch_seen(s, idx0 + 1, key) implies batch_seen(
                    s,
                    idx0,
                    key,
                ) || key == k32 as u64 by {
                    let x = choose|x: int| 0 <= x < idx0 + 1 && ((*s[x].0) as u64 == key);
                    if x < idx0 {
                        assert(batch_seen(s, idx0, key));
                    }
                }
                assert forall|key: u64| batch_seen(s, idx0, key) implies #[trigger] batch_seen(
                    s,
                    idx0 + 1,
                    key,
                ) by {
                    let x = choose|x: int| 0 <= x < idx0 && ((*s[x].0) as u64 == key);
                    assert(0 <= x < idx0 + 1 && ((*s[x].0) as u64 == key));
                }
                assert(batch_seen(s, idx0 + 1, k32 as u64)) by {
                    assert(0 <= idx0 < idx0 + 1 && ((*s[idx0].0) as u64 == k32 as u64));
                }
                gidx = idx0 + 1;
            }
        }
        proof {
            assert(gidx == s.len());
            assert_maps_equal!(self.assignment(), a0.union_prefer_right(lift_leaves(leaves@)), key => {
                if key <= u32::MAX as u64 && leaves@.contains_key(key as u32) {
                    let k32 = key as u32;
                    assert(s.contains((&k32, &leaves@[k32])));
                    let x = choose|x: int| 0 <= x < s.len() && s[x] == (&k32, &leaves@[k32]);
                    assert((*s[x].0) as u64 == key);
                    assert(batch_seen(s, gidx, key));
                } else {
                    if batch_seen(s, gidx, key) {
                        let x = choose|x: int| 0 <= x < gidx && ((*s[x].0) as u64 == key);
                        assert(leaves@.contains_key(*s[x].0));
                        assert(false);
                    }
                }
            });
        }
        Ok(())
    }

    /// Creates a new sparse Merkle tree from a map of slots to leaf digests,
    /// seeding the empty-hash ladder from `empty_leaf`.
    pub fn new(leaves: &BTreeMap<u32, F>, hasher: &H, empty_leaf: F) -> (r: Result<
        Self,
        MerkleError,
    >)
        requires
            1 <= N <= 63,
            forall|k: u32| #[trigger] leaves@.contains_key(k) ==> (k as int) < pow2(N as nat),
        ensures
            r matches Ok(t) ==> {
                &&& t.wf(*hasher)
                &&& t.default_leaf() == empty_leaf
                &&& t.assignment() == lift_leaves(leaves@)
            },
            r matches Err(e) ==> e == MerkleError::HasherError,
            hasher_total::<F, H>(*hasher) ==> r is Ok,
    {
        let empty_hashes = match gen_empty_hashes::<F, H, N>(hasher, empty_leaf) {
            Ok(v) => v,
            Err(e) => {
                return Err(e);
            },
        };
        let tree: BTreeMap<u64, F> = BTreeMap::new();
        let mut smt = SparseMerkleTree { tree, empty_hashes, marker: PhantomData };
        proof {
            assert forall|kk: u64| !(#[trigger] smt.assignment().contains_key(kk)) by {}
            assert(smt.wf(*hasher));
        }
        match smt.insert_batch(leaves, hasher) {
            Ok(()) => {
                proof {
                    assert_maps_equal!(smt.assignment(), lift_leaves(leaves@), key => {});
                }
                Ok(smt)
            },
            Err(e) => Err(e),
        }
    }

    /// Creates a new sparse Merkle tree from a sequence of leaf digests,
    /// placed at slots `0, 1, 2, ...` in order.
    pub fn new_sequential(leaves: &Vec<F>, hasher: &H, empty_leaf: F) -> (r: Result<
        Self,
        MerkleError,
    >)
        requires
            1 <= N <= 63,
            leaves@.len() <= pow2(N as nat),
            leaves@.len() <= 0x1_0000_0000,
        ensures
            r matches Ok(t) ==> {
                &&& t.wf(*hasher)
                &&& t.default_leaf() == empty_leaf
                &&& t.assignment() == seq_assignment(leaves@)
            },
            r matches Err(e) ==> e == MerkleError::HasherError,
            hasher_total::<F, H>(*hasher) ==> r is Ok,
    {
        let mut pairs: BTreeMap<u32, F> = BTreeMap::new();
        let mut idx: usize = 0;
        while idx < leaves.len()
            invariant
                idx <= leaves@.len(),
                leaves@.len() <= pow2(N as nat),
                leaves@.len() <= 0x1_0000_0000,
                forall|k: u32| #[trigger] pairs@.contains_key(k) <==> (k as int) < idx,
                forall|k: u32|
                    #[trigger] pairs@.contains_key(k) ==> pairs@[k] == leaves@[k as int],
            decreases leaves@.len() - idx,
        {
            pairs.insert(idx as u32, leaves[idx]);
            idx += 1;
        }
        let r = Self::new(&pairs, hasher, empty_leaf);
        proof {
            assert_maps_equal!(lift_leaves(pairs@), seq_assignment(leaves@), key => {});
        }
        r
    }


    /// Returns the Merkle tree root.
    pub fn root(&self) -> (r: F)
        requires
            1 <= N,
            self.empty_hashes@.len() == N,
        ensures
            r == self.spec_root(),
    {
        match self.tree.get(&0u64) {
            Some(v) => *v,
            None => self.empty_hashes[N - 1],
        }
    }

    /// The `(left, right)` digest pair at level `l` on the path of leaf slot
    /// `index`: the node on the path and its sibling, stored or imputed from
    /// the ladder, the left child first.
    pub open spec fn spec_path_pair(self, index: u64, l: nat) -> (F, F) {
        let c = anc_node(index, l, N as nat);
        let cv = stored_or(self.tree@, c, self.empty_hashes@[l as int]);
        let sv = stored_or(self.tree@, sp_sibling(c), self.empty_hashes@[l as int]);
        if c % 2 == 1 {
            (cv, sv)
        } else {
            (sv, cv)
        }
    }

    /// Gives the path leading from the leaf at `index` up to the root. This
    /// is a "proof" in the sense of "valid path in a Merkle tree", not a ZK
    /// argument.
    pub fn generate_membership_path(&self, index: u64) -> (r: Path<F, N>)
        requires
            1 <= N <= 63,
            (index as int) < pow2(N as nat),
            self.empty_hashes@.len() == N,
        ensures
            r.path@.len() == N,
            forall|l: int|
                0 <= l < N ==> #[trigger] r.path@[l] == self.spec_path_pair(index, l as nat),
    {
        let ghost nn = N as nat;
        let mut path: Vec<(F, F)> = Vec::new();
        let tree_index = convert_index_to_last_level(index, N);
        let mut current_node = tree_index;
        let mut level: usize = 0;
        while !is_root(current_node)
            invariant
                1 <= N <= 63,
                nn == N as nat,
                (index as int) < pow2(nn),
                self.empty_hashes@.len() == N,
                level <= N,
                current_node as int == anc_node(index, level as nat, nn),
                path@.len() == level,
                forall|l: int|
                    0 <= l < level ==> #[trigger] path@[l] == self.spec_path_pair(
                        index,
                        l as nat,
                    ),
            decreases N - level,
        {
            proof {
                lemma_anc_root(index as int, level as nat, nn);
                if level == N {
                    assert(current_node == 0);
                }
                assert(level < N);
                lemma_anc_bounds(index, level as nat, nn);
                lemma_sibling_at(current_node as int, level as nat, nn);
                lemma_pow2_le((nn - level) as nat, 63);
                vstd::arithmetic::power2::lemma2_to64_rest();
                vstd::arithmetic::power2::lemma_pow2_unfold(64);
            }
            let sibling_node = match sibling(current_node) {
                Some(x) => x,
                None => {
                    return Path { path };
                },
            };
            let empty_hash = self.empty_hashes[level];
            let current = match self.tree.get(&current_node) {
                Some(x) => *x,
                None => empty_hash,
            };
            let sib = match self.tree.get(&sibling_node) {
                Some(x) => *x,
                None => empty_hash,
            };
            if is_left_child(current_node) {
                path.push((current, sib));
            } else {
                path.push((sib, current));
            }
            proof {
                assert(path@[level as int] == self.spec_path_pair(index, level as nat));
            }
            current_node = match parent(current_node) {
                Some(x) => x,
                None => {
                    return Path { path };
                },
            };
            level += 1;
        }
        proof {
            lemma_anc_root(index as int, level as nat, nn);
            if level < N {
                assert(current_node as int >= 1);
            }
        }
        Path { path }
    }

    /// Single-leaf membership proof: the path, the current root, and the
    /// stored (or default) digest at the slot.
    pub fn generate_membership_proof(&self, index: u64) -> (r: Proof<F, N>)
        requires
            1 <= N <= 63,
            (index as int) < pow2(N as nat),
            self.empty_hashes@.len() == N,
        ensures
            r.path.path@.len() == N,
            forall|l: int|
                0 <= l < N ==> #[trigger] r.path.path@[l] == self.spec_path_pair(index, l as nat),
            r.root == self.spec_root(),
            r.leaf == stored_or(self.tree@, sp_leaf(index as int, N as nat), self.empty_hashes@[0]),
    {
        let empty_hash = self.empty_hashes[0];
        let tree_index = convert_index_to_last_level(index, N);
        proof {
            lemma_anc_bounds(index, 0, N as nat);
        }
        let leaf = match self.tree.get(&tree_index) {
            Some(x) => *x,
            None => empty_hash,
        };
        Proof { path: self.generate_membership_path(index), root: self.root(), leaf }
    }

    /// Extracts a partial tree attesting the given leaf slots: exactly the
    /// materialized nodes on their paths (and the siblings of those nodes) whose
    /// digest differs from the empty hash of their level.
    #[verifier::rlimit(100)]
    pub fn batch_prove(&self, leaves: &Vec<u64>) -> (r: PartialTree<F, N>)
        requires
            1 <= N <= 63,
            self.empty_hashes@.len() == N,
            forall|j: int|
                0 <= j < leaves@.len() ==> ((#[trigger] leaves@[j]) as int) < pow2(N as nat),
        ensures
            r.empty_hashes@ == self.empty_hashes@,
            r.leaves@ == leaves@,
            r.root == self.spec_root(),
            forall|i: u64| #[trigger] r.tree@.contains_key(i) <==> (self.tree@.contains_key(i)
                && proof_covered(leaves@, i as int, N as nat) && self.tree@[i]
                != self.empty_hashes@[height_of(i as int, N as nat) as int]),
            forall|i: u64| #[trigger] r.tree@.contains_key(i) ==> r.tree@[i] == self.tree@[i],
    {
        let ghost nn = N as nat;
        let mut ladder: Vec<F> = Vec::new();
        let mut x: usize = 0;
        while x < N
            invariant
                self.empty_hashes@.len() == N,
                x <= N,
                ladder@ =~= self.empty_hashes@.take(x as int),
            decreases N - x,
        {
            ladder.push(self.empty_hashes[x]);
            x += 1;
        }
        proof {
            assert(ladder@ =~= self.empty_hashes@);
        }
        let mut partial = PartialTree {
            tree: BTreeMap::new(),
            empty_hashes: ladder,
            leaves: Vec::new(),
            root: self.root(),
        };
        proof {
            assert(partial.leaves@ =~= leaves@.take(0));
        }
        let mut j: usize = 0;
        while j < leaves.len()
            invariant
                1 <= N <= 63,
                nn == N as nat,
                self.empty_hashes@.len() == N,
                forall|jj: int|
                    0 <= jj < leaves@.len() ==> ((#[trigger] leaves@[jj]) as int) < pow2(nn),
                j <= leaves@.len(),
                partial.empty_hashes@ == self.empty_hashes@,
                partial.leaves@ == leaves@.take(j as int),
                partial.root == self.spec_root(),
                forall|i: u64| #[trigger] partial.tree@.contains_key(i) <==> (
                    self.tree@.contains_key(i) && proof_covered(leaves@.take(j as int), i as int, nn)
                    && self.tree@[i] != self.empty_hashes@[height_of(i as int, nn) as int]),
                forall|i: u64| #[trigger] partial.tree@.contains_key(i) ==> partial.tree@[i]
                    == self.tree@[i],
            decreases leaves@.len() - j,
        {
            let leaf = leaves[j];
            let mut current_node = convert_index_to_last_level(leaf, N);
            let mut level: usize = 0;
            while !is_root(current_node)
                invariant
                    1 <= N <= 63,
                    nn == N as nat,
                    self.empty_hashes@.len() == N,
                    forall|jj: int|
                        0 <= jj < leaves@.len() ==> ((#[trigger] leaves@[jj]) as int) < pow2(nn),
                    j < leaves@.len(),
                    leaf == leaves@[j as int],
                    level <= N,
                    current_node as int == anc_node(leaf, level as nat, nn),
                    partial.empty_hashes@ == self.empty_hashes@,
                    partial.leaves@ == leaves@.take(j as int),
                    partial.root == self.spec_root(),
                    forall|i: u64| #[trigger] partial.tree@.contains_key(i) <==> (
                        self.tree@.contains_key(i) && (proof_covered(
                            leaves@.take(j as int),
                            i as int,
                            nn,
                        ) || walk_covered(leaf, level as nat, i as int, nn)) && self.tree@[i]
                        != self.empty_hashes@[height_of(i as int, nn) as int]),
                    forall|i: u64| #[trigger] partial.tree@.contains_key(i) ==> partial.tree@[i]
                        == self.tree@[i],
                decreases N - level,
            {
                proof {
                    lemma_anc_root(leaf as int, level as nat, nn);
                    if level == N {
                        assert(current_node == 0);
                    }
                    assert(level < N);
                    lemma_anc_bounds(leaf, level as nat, nn);
                    lemma_sibling_at(current_node as int, level as nat, nn);
                    lemma_pow2_le((nn - level) as nat, 63);
                    vstd::arithmetic::power2::lemma2_to64_rest();
                    vstd::arithmetic::power2::lemma_pow2_unfold(64);
                    lemma_height_of(current_node as int, level as nat, nn);
                    lemma_height_of(sp_sibling(current_node as int), level as nat, nn);
                }
                let sibling_node = match sibling(current_node) {
                    Some(x) => x,
                    None => {
                        return partial;
                    },
                };
                let empty_hash = self.empty_hashes[level];
                match self.tree.get(&current_node) {
                    Some(x) => {
                        if !x.eq_value(&empty_hash) {
                            partial.tree.insert(current_node, *x);
                        }
                    },
                    None => {},
                }
                match self.tree.get(&sibling_node) {
                    Some(x) => {
                        if !x.eq_value(&empty_hash) {
                            partial.tree.insert(sibling_node, *x);
                        }
                    },
                    None => {},
                }
                proof {
                    lemma_walk_covered_step(leaf, level as nat, nn);
                }
                current_node = match parent(current_node) {
                    Some(x) => x,
                    None => {
                        return partial;
                    },
                };
                level += 1;
            }
            proof {
                lemma_anc_root(leaf as int, level as nat, nn);
                if level < N {
                    assert(current_node as int >= 1);
                }
                assert(level == N);
                lemma_proof_covered_step(leaves@, j as int, nn);
                assert(leaves@.take(j as int + 1) =~= leaves@.take(j as int).push(leaves@[j as int]));
            }
            partial.leaves.push(leaf);
            j += 1;
        }
        proof {
            assert(leaves@.take(leaves@.len() as int) =~= leaves@);
        }
        partial
    }

}

/// What `calculate_root` computes: fold the hash up the path, checking at
/// each level that the running digest occurs in the pair.
pub open spec fn spec_path_fold<F: FieldExt, H: FieldHasher<F>>(
    h: H,
    path: Seq<(F, F)>,
    x: F,
) -> Result<F, MerkleError>
    decreases path.len(),
{
    if path.len() == 0 {
        Ok(x)
    } else {
        let (lv, rv) = path[0];
        if x != lv && x != rv {
            Err(MerkleError::InvalidPathNodes)
        } else if !h.hash_ok(lv, rv) {
            Err(MerkleError::HasherError)
        } else {
            spec_path_fold(h, path.drop_first(), h.spec_hash(lv, rv))
        }
    }
}

/// What `calculate_root` returns on a path and a claimed leaf.
pub open spec fn spec_calculate_root<F: FieldExt, H: FieldHasher<F>>(
    h: H,
    path: Seq<(F, F)>,
    leaf: F,
) -> Result<F, MerkleError> {
    if leaf != path[0].0 && leaf != path[0].1 {
        Err(MerkleError::InvalidLeaf)
    } else {
        spec_path_fold(h, path, leaf)
    }
}

/// What `check_membership` returns: whether the recomputed root matches the
/// claimed one.
pub open spec fn spec_check_membership<F: FieldExt, H: FieldHasher<F>>(
    h: H,
    path: Seq<(F, F)>,
    root: F,
    leaf: F,
) -> Result<bool, MerkleError> {
    match spec_calculate_root(h, path, leaf) {
        Ok(r) => Ok(r == root),
        Err(e) => Err(e),
    }
}

impl<F: FieldExt, const N: usize> Path<F, N> {
    /// Assumes `leaf` contains leaf-level data, i.e. hashes of secrets
    /// stored on leaf-level, and recomputes the root along the path.
    pub fn calculate_root<H: FieldHasher<F>>(&self, leaf: &F, hasher: &H) -> (r: Result<
        F,
        MerkleError,
    >)
        requires
            self.path@.len() >= 1,
        ensures
            r == spec_calculate_root(*hasher, self.path@, *leaf),
    {
        let first = self.path[0];
        if !leaf.eq_value(&first.0) && !leaf.eq_value(&first.1) {
            return Err(MerkleError::InvalidLeaf);
        }
        let mut prev = *leaf;
        let mut idx: usize = 0;
        proof {
            assert(self.path@.skip(0) =~= self.path@);
        }
        while idx < self.path.len()
            invariant
                self.path@.len() >= 1,
                idx <= self.path@.len(),
                spec_calculate_root(*hasher, self.path@, *leaf) == spec_path_fold(
                    *hasher,
                    self.path@.skip(idx as int),
                    prev,
                ),
            decreases self.path@.len() - idx,
        {
            let pair = self.path[idx];
            proof {
                assert(self.path@.skip(idx as int)[0] == self.path@[idx as int]);
            }
            if !prev.eq_value(&pair.0) && !prev.eq_value(&pair.1) {
                return Err(MerkleError::InvalidPathNodes);
            }
            match hasher.hash([pair.0, pair.1]) {
                Ok(hv) => {
                    proof {
                        assert(self.path@.skip(idx as int).drop_first() =~= self.path@.skip(
                            idx as int + 1,
                        ));
                    }
                    prev = hv;
                },
                Err(e) => {
                    return Err(e);
                },
            }
            idx += 1;
        }
        Ok(prev)
    }

    /// Takes in an expected `root_hash` and leaf-level data (i.e. hashes of
    /// secrets) for a leaf and checks that the leaf belongs to a tree having
    /// the expected root.
    pub fn check_membership<H: FieldHasher<F>>(&self, root_hash: &F, leaf: &F, hasher: &H) -> (r:
        Result<bool, MerkleError>)
        requires
            self.path@.len() >= 1,
        ensures
            r == spec_check_membership(*hasher, self.path@, *root_hash, *leaf),
    {
        match self.calculate_root(leaf, hasher) {
            Ok(root) => Ok(root.eq_value(root_hash)),
            Err(e) => Err(e),
        }
    }
}

impl<F: FieldExt, const N: usize> Proof<F, N> {
    /// Checks the stored path against the stored root and leaf.
    pub fn verify<H: FieldHasher<F>>(&self, h: &H) -> (r: Result<bool, MerkleError>)
        requires
            self.path.path@.len() >= 1,
        ensures
            r == spec_check_membership(*h, self.path.path@, self.root, self.leaf),
    {
        self.path.check_membership(&self.root, &self.leaf, h)
    }
}

impl<F: FieldExt, const N: usize> PartialTree<F, N> {
    /// One parent-consistency check of `verify`: the stored (or imputed)
    /// parent at level `l + 1` on the path of slot `k` must equal the hash
    /// of its two stored (or imputed) children.
    pub open spec fn check_at<H: FieldHasher<F>>(self, h: H, k: u64, l: nat) -> bool {
        let p = anc_node(k, (l + 1) as nat, N as nat);
        let lv = stored_or(self.tree@, sp_left(p), self.empty_hashes@[l as int]);
        let rv = stored_or(self.tree@, sp_right(p), self.empty_hashes@[l as int]);
        &&& h.hash_ok(lv, rv)
        &&& h.spec_hash(lv, rv) == stored_or(self.tree@, p, self.empty_hashes@[l as int + 1])
    }

    /// Whether every consistency check of `verify` passes: all levels below
    /// the top, on the path of every attested slot.
    pub open spec fn spec_checks<H: FieldHasher<F>>(self, h: H) -> bool {
        forall|j: int, l: nat|
            #![trigger self.check_at(h, self.leaves@[j], l)]
            0 <= j < self.leaves@.len() && l < (N - 1) as nat ==> self.check_at(
                h,
                self.leaves@[j],
                l,
            )
    }

    /// The root-edge condition of strict verification: the claimed root is
    /// the hash of the two stored (or imputed) children of the root.
    pub open spec fn spec_root_edge<H: FieldHasher<F>>(self, h: H) -> bool {
        let lv = stored_or(self.tree@, 1, self.empty_hashes@[N - 1]);
        let rv = stored_or(self.tree@, 2, self.empty_hashes@[N - 1]);
        &&& h.hash_ok(lv, rv)
        &&& h.spec_hash(lv, rv) == self.root
    }

    /// Verifies the partial tree level by level: recomputes each parent on
    /// the attested paths from its two children, stored or imputed from the
    /// empty-hash ladder, and compares it with the stored (or imputed)
    /// parent. The claimed root itself is not compared, preserving the wire
    /// behaviour; `verify_strict` adds that check.
    #[verifier::rlimit(100)]
    pub fn verify<H: FieldHasher<F>>(&self, hasher: &H) -> (r: Result<(), MerkleError>)
        requires
            1 <= N <= 63,
            self.empty_hashes@.len() == N,
            forall|j: int|
                0 <= j < self.leaves@.len() ==> ((#[trigger] self.leaves@[j]) as int) < pow2(
                    N as nat,
                ),
        ensures
            r is Ok <==> self.spec_checks(*hasher),
            r matches Err(e) ==> (e == MerkleError::HashMismatch || e
                == MerkleError::HasherError),
            hasher_total::<F, H>(*hasher) ==> r != Err::<(), MerkleError>(
                MerkleError::HasherError,
            ),
    {
        let ghost nn = N as nat;
        let mut j: usize = 0;
        while j < self.leaves.len()
            invariant
                1 <= N <= 63,
                nn == N as nat,
                self.empty_hashes@.len() == N,
                forall|jj: int|
                    0 <= jj < self.leaves@.len() ==> ((#[trigger] self.leaves@[jj]) as int) < pow2(
                        nn,
                    ),
                j <= self.leaves@.len(),
                forall|jj: int, l: nat|
                    #![trigger self.check_at(*hasher, self.leaves@[jj], l)]
                    0 <= jj < j && l < (N - 1) as nat ==> self.check_at(
                        *hasher,
                        self.leaves@[jj],
                        l,
                    ),
            decreases self.leaves@.len() - j,
        {
            let k = self.leaves[j];
            let tree_index = convert_index_to_last_level(k, N);
            proof {
                lemma_anc_bounds(k, 0, nn);
                lemma_anc_root(k as int, 0, nn);
                lemma_anc_bounds(k, 1, nn);
            }
            let mut i = match parent(tree_index) {
                Some(x) => x,
                None => {
                    return Err(MerkleError::HashMismatch);
                },
            };
            let mut lvl: usize = 0;
            while lvl < N - 1
                invariant
                    1 <= N <= 63,
                    nn == N as nat,
                    self.empty_hashes@.len() == N,
                    forall|jj: int|
                        0 <= jj < self.leaves@.len() ==> ((#[trigger] self.leaves@[jj]) as int)
                            < pow2(nn),
                    j < self.leaves@.len(),
                    k == self.leaves@[j as int],
                    lvl <= N - 1,
                    i as int == anc_node(k, (lvl + 1) as nat, nn),
                    forall|jj: int, l: nat|
                        #![trigger self.check_at(*hasher, self.leaves@[jj], l)]
                        0 <= jj < j && l < (N - 1) as nat ==> self.check_at(
                            *hasher,
                            self.leaves@[jj],
                            l,
                        ),
                    forall|l: nat|
                        #![trigger self.check_at(*hasher, k, l)]
                        l < lvl ==> self.check_at(*hasher, k, l),
                decreases N - 1 - lvl,
            {
                proof {
                    lemma_anc_bounds(k, (lvl + 1) as nat, nn);
                    lemma_child_at(i as int, (lvl + 1) as nat, nn);
                    lemma_pow2_le((nn - lvl) as nat, 63);
                    vstd::arithmetic::power2::lemma_pow2_unfold((nn - lvl) as nat);
                    vstd::arithmetic::power2::lemma2_to64_rest();
                    vstd::arithmetic::power2::lemma_pow2_unfold(64);
                    lemma_anc_root(k as int, (lvl + 1) as nat, nn);
                }
                let cl = left_child(i);
                let cr = right_child(i);
                let empty_child = self.empty_hashes[lvl];
                let empty_parent = self.empty_hashes[lvl + 1];
                let lv = match self.tree.get(&cl) {
                    Some(x) => *x,
                    None => empty_child,
                };
                let rv = match self.tree.get(&cr) {
                    Some(x) => *x,
                    None => empty_child,
                };
                let got = match self.tree.get(&i) {
                    Some(x) => *x,
                    None => empty_parent,
                };
                proof {
                    assert(lv == stored_or(
                        self.tree@,
                        sp_left(i as int),
                        self.empty_hashes@[lvl as int],
                    ));
                    assert(rv == stored_or(
                        self.tree@,
                        sp_right(i as int),
                        self.empty_hashes@[lvl as int],
                    ));
                    assert(got == stored_or(self.tree@, i as int, self.empty_hashes@[lvl + 1]));
                }
                let expected = match hasher.hash([lv, rv]) {
                    Ok(x) => x,
                    Err(e) => {
                        proof {
                            assert(!self.check_at(*hasher, k, lvl as nat));
                            assert(!self.spec_checks(*hasher));
                        }
                        return Err(e);
                    },
                };
                if !expected.eq_value(&got) {
                    proof {
                        assert(!self.check_at(*hasher, k, lvl as nat));
                        assert(!self.spec_checks(*hasher));
                    }
                    return Err(MerkleError::HashMismatch);
                }
                proof {
                    assert(self.check_at(*hasher, k, lvl as nat));
                }
                i = match parent(i) {
                    Some(x) => x,
                    None => {
                        return Err(MerkleError::HashMismatch);
                    },
                };
                lvl += 1;
            }
            j += 1;
        }
        Ok(())
    }

    /// Strict verification: the wire-compatible checks of `verify`, plus the
    /// safety check that the claimed root equals the hash of the root's two
    /// stored (or imputed) children whenever any leaf is attested. An empty
    /// attestation still succeeds trivially.
    pub fn verify_strict<H: FieldHasher<F>>(&self, hasher: &H) -> (r: Result<(), MerkleError>)
        requires
            1 <= N <= 63,
            self.empty_hashes@.len() == N,
            forall|j: int|
                0 <= j < self.leaves@.len() ==> ((#[trigger] self.leaves@[j]) as int) < pow2(
                    N as nat,
                ),
        ensures
            r is Ok <==> (self.spec_checks(*hasher) && (self.leaves@.len() == 0
                || self.spec_root_edge(*hasher))),
            r matches Err(e) ==> (e == MerkleError::HashMismatch || e
                == MerkleError::HasherError),
            hasher_total::<F, H>(*hasher) ==> r != Err::<(), MerkleError>(
                MerkleError::HasherError,
            ),
    {
        match self.verify(hasher) {
            Ok(()) => {},
            Err(e) => {
                return Err(e);
            },
        }
        if self.leaves.len() == 0 {
            return Ok(());
        }
        let empty_top = self.empty_hashes[N - 1];
        let lv = match self.tree.get(&1u64) {
            Some(x) => *x,
            None => empty_top,
        };
        let rv = match self.tree.get(&2u64) {
            Some(x) => *x,
            None => empty_top,
        };
        proof {
            assert(lv == stored_or(self.tree@, 1, self.empty_hashes@[N - 1]));
            assert(rv == stored_or(self.tree@, 2, self.empty_hashes@[N - 1]));
        }
        match hasher.hash([lv, rv]) {
            Ok(top) => {
                if top.eq_value(&self.root) {
                    Ok(())
                } else {
                    Err(MerkleError::HashMismatch)
                }
            },
            Err(e) => Err(e),
        }
    }
}

} // verus!
