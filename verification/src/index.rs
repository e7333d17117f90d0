//! Index arithmetic for the implicit complete binary tree.
//!
//! Nodes use the standard heap encoding: the root is `0`, the children of
//! node `i` are `2*i + 1` (left) and `2*i + 2` (right), and the leaf slot
//! `k` of a tree of height `n` lives at node index `k + 2^n - 1`.

use vstd::prelude::*;

verus! {

use vstd::arithmetic::power2::{pow2, lemma_pow2_unfold, lemma_pow2_pos, lemma_pow2_strictly_increases};

/// Parent of a node in the heap encoding (meaningful for `i >= 1`).
pub open spec fn sp_parent(i: int) -> int {
    (i - 1) / 2
}

/// Left child of a node.
pub open spec fn sp_left(i: int) -> int {
    2 * i + 1
}

/// Right child of a node.
pub open spec fn sp_right(i: int) -> int {
    2 * i + 2
}

/// Sibling of a node (meaningful for `i >= 1`).
pub open spec fn sp_sibling(i: int) -> int {
    if i % 2 == 1 {
        i + 1
    } else {
        i - 1
    }
}

/// Node index of leaf slot `k` in a tree of height `n`.
pub open spec fn sp_leaf(k: int, n: nat) -> int {
    k + pow2(n) - 1
}

/// The ancestor of node `j` that lies `s` edges closer to the root.
pub open spec fn anc(j: int, s: nat) -> int
    decreases s,
{
    if s == 0 {
        j
    } else {
        sp_parent(anc(j, (s - 1) as nat))
    }
}

/// Whether `i` is a valid node index at height `ht` (leaves have height 0)
/// in a tree of height `n`.
pub open spec fn node_at(i: int, ht: nat, n: nat) -> bool {
    &&& ht <= n
    &&& pow2((n - ht) as nat) - 1 <= i < 2 * pow2((n - ht) as nat) - 1
}

/// Floor of the base-2 logarithm (with `lg(0) == 0`).
pub open spec fn lg(x: nat) -> nat
    decreases x,
{
    if x <= 1 {
        0
    } else {
        1 + lg(x / 2)
    }
}

/// Ceiling of the base-2 logarithm (with `clg(0) == 0`): the smallest `m`
/// with `x <= 2^m`.
pub open spec fn clg(x: nat) -> nat
    decreases x,
{
    if x <= 1 {
        0
    } else {
        1 + clg((x + 1) / 2)
    }
}

/// The height at which a valid node index `i` sits in a tree of height `n`.
pub open spec fn height_of(i: int, n: nat) -> nat {
    (n - lg((i + 1) as nat)) as nat
}

/// Division by two, spelled out for the solver.
proof fn lemma_div2(x: int)
    requires
        x >= 0,
    ensures
        x == 2 * (x / 2) + x % 2,
        0 <= x % 2 < 2,
{
    vstd::arithmetic::div_mod::lemma_fundamental_div_mod(x, 2);
    vstd::arithmetic::div_mod::lemma_mod_bound(x, 2);
}

/// `lg` answers the usual power-of-two bracketing.
pub proof fn lemma_lg_bracket(x: nat, m: nat)
    requires
        pow2(m) <= x < 2 * pow2(m),
    ensures
        lg(x) == m,
    decreases m,
{
    lemma_pow2_pos(m);
    if m == 0 {
        vstd::arithmetic::power2::lemma2_to64();
        assert(x == 1);
    } else {
        lemma_pow2_unfold(m);
        lemma_pow2_pos((m - 1) as nat);
        lemma_div2(x as int);
        assert(pow2((m - 1) as nat) <= x / 2 < 2 * pow2((m - 1) as nat));
        lemma_lg_bracket(x / 2, (m - 1) as nat);
        assert(x >= 2);
    }
}

/// A valid node index determines its height.
pub proof fn lemma_height_of(i: int, ht: nat, n: nat)
    requires
        node_at(i, ht, n),
    ensures
        height_of(i, n) == ht,
{
    lemma_pow2_pos((n - ht) as nat);
    lemma_lg_bracket((i + 1) as nat, (n - ht) as nat);
}

/// A node `x >= 1` is one of the two children of its parent.
pub proof fn lemma_parent_child(x: int)
    requires
        x >= 1,
    ensures
        x == sp_left(sp_parent(x)) || x == sp_right(sp_parent(x)),
        sp_parent(sp_left(sp_parent(x))) == sp_parent(x),
        sp_parent(sp_right(sp_parent(x))) == sp_parent(x),
        sp_sibling(x) == if x == sp_left(sp_parent(x)) {
            sp_right(sp_parent(x))
        } else {
            sp_left(sp_parent(x))
        },
{
    let p = (x - 1) / 2;
    assert(x - 1 == 2 * p + ((x - 1) % 2)) by {
        vstd::arithmetic::div_mod::lemma_fundamental_div_mod(x - 1, 2);
    }
    assert((2 * p + 1 - 1) / 2 == p && (2 * p + 2 - 1) / 2 == p) by {
        vstd::arithmetic::div_mod::lemma_fundamental_div_mod_converse(2 * p, 2, p, 0);
        vstd::arithmetic::div_mod::lemma_fundamental_div_mod_converse(2 * p + 1, 2, p, 1);
    }
    assert((2 * p + 1) % 2 == 1 && (2 * p + 2) % 2 == 0) by {
        vstd::arithmetic::div_mod::lemma_fundamental_div_mod_converse(2 * p + 1, 2, p, 1);
        vstd::arithmetic::div_mod::lemma_fundamental_div_mod_converse(2 * p + 2, 2, p + 1, 0);
    }
}

/// Ancestors of a leaf node are valid nodes at the expected heights.
pub proof fn lemma_anc_range(k: int, s: nat, n: nat)
    requires
        0 <= k < pow2(n),
        s <= n,
    ensures
        node_at(anc(sp_leaf(k, n), s), s, n),
    decreases s,
{
    lemma_pow2_pos(n);
    if s == 0 {
        assert(pow2((n - 0) as nat) == pow2(n));
    } else {
        lemma_anc_range(k, (s - 1) as nat, n);
        let x = anc(sp_leaf(k, n), (s - 1) as nat);
        let m = (n - (s - 1)) as nat;
        lemma_pow2_pos(m);
        lemma_pow2_unfold(m);
        // x in [2^m - 1, 2^(m+1) - 2]; (x - 1) / 2 in [2^(m-1) - 1, 2^m - 2]
        assert(pow2((m - 1) as nat) - 1 <= (x - 1) / 2 < 2 * pow2((m - 1) as nat) - 1) by {
            let h = pow2((m - 1) as nat);
            assert(2 * h - 1 <= x < 4 * h - 1);
            assert((x - 1) / 2 >= h - 1) by {
                vstd::arithmetic::div_mod::lemma_div_is_ordered(2 * h - 2, x - 1, 2);
                vstd::arithmetic::div_mod::lemma_fundamental_div_mod_converse(2 * h - 2, 2, h - 1, 0);
            }
            assert((x - 1) / 2 <= 2 * h - 2) by {
                vstd::arithmetic::div_mod::lemma_div_is_ordered(x - 1, 4 * h - 3, 2);
                vstd::arithmetic::div_mod::lemma_fundamental_div_mod_converse(4 * h - 3, 2, 2 * h - 2, 1);
            }
        }
        assert((n - s) as nat == (m - 1) as nat);
    }
}

/// The ancestor of a leaf at distance `n` is the root, and no nearer
/// ancestor is.
pub proof fn lemma_anc_root(k: int, s: nat, n: nat)
    requires
        0 <= k < pow2(n),
        s <= n,
    ensures
        s == n ==> anc(sp_leaf(k, n), s) == 0,
        s < n ==> anc(sp_leaf(k, n), s) >= 1,
{
    lemma_anc_range(k, s, n);
    vstd::arithmetic::power2::lemma2_to64();
    if s == n {
        assert((n - s) as nat == 0);
    } else {
        lemma_pow2_strictly_increases(0, (n - s) as nat);
    }
}

/// `pow2` is monotone.
pub proof fn lemma_pow2_le(e1: nat, e2: nat)
    requires
        e1 <= e2,
    ensures
        pow2(e1) <= pow2(e2),
{
    if e1 < e2 {
        lemma_pow2_strictly_increases(e1, e2);
    }
}

/// The children of a valid internal node are valid nodes one level down.
pub proof fn lemma_child_at(i: int, ht: nat, n: nat)
    requires
        node_at(i, ht, n),
        ht >= 1,
    ensures
        node_at(sp_left(i), (ht - 1) as nat, n),
        node_at(sp_right(i), (ht - 1) as nat, n),
        sp_parent(sp_left(i)) == i,
        sp_parent(sp_right(i)) == i,
        sp_left(i) >= 1,
        sp_sibling(sp_left(i)) == sp_right(i),
        sp_sibling(sp_right(i)) == sp_left(i),
{
    let m = (n - ht) as nat;
    lemma_pow2_pos(m);
    lemma_pow2_unfold((m + 1) as nat);
    assert((n - (ht - 1)) as nat == (m + 1) as nat);
    lemma_parent_child(sp_left(i));
    lemma_parent_child(sp_right(i));
    vstd::arithmetic::div_mod::lemma_fundamental_div_mod_converse(2 * i, 2, i, 0);
    vstd::arithmetic::div_mod::lemma_fundamental_div_mod_converse(2 * i + 1, 2, i, 1);
    vstd::arithmetic::div_mod::lemma_fundamental_div_mod_converse(2 * i + 2, 2, i + 1, 0);
}

/// A non-root valid node's sibling is valid at the same height and shares
/// the parent.
pub proof fn lemma_sibling_at(i: int, ht: nat, n: nat)
    requires
        node_at(i, ht, n),
        ht < n,
    ensures
        i >= 1,
        node_at(sp_sibling(i), ht, n),
        sp_parent(sp_sibling(i)) == sp_parent(i),
        sp_sibling(i) != i,
        i % 2 == 1 ==> sp_left(sp_parent(i)) == i && sp_right(sp_parent(i)) == sp_sibling(i),
        i % 2 == 0 ==> sp_right(sp_parent(i)) == i && sp_left(sp_parent(i)) == sp_sibling(i),
{
    let m = (n - ht) as nat;
    lemma_pow2_pos((m - 1) as nat);
    lemma_pow2_unfold(m);
    lemma_div2(i);
    let q = i / 2;
    if i % 2 == 1 {
        // i is odd, so i < 2^(m+1) - 2 (which is even), and the sibling is i + 1
        vstd::arithmetic::div_mod::lemma_fundamental_div_mod_converse(i + 1, 2, q + 1, 0);
        vstd::arithmetic::div_mod::lemma_fundamental_div_mod_converse(i - 1, 2, q, 0);
    } else {
        // i is even, so i > 2^m - 1 (which is odd), and the sibling is i - 1
        vstd::arithmetic::div_mod::lemma_fundamental_div_mod_converse(i - 1, 2, q - 1, 1);
        vstd::arithmetic::div_mod::lemma_fundamental_div_mod_converse(i - 2, 2, q - 1, 0);
    }
}

/// Two different heights give disjoint index ranges.
pub proof fn lemma_node_at_unique(i: int, h1: nat, h2: nat, n: nat)
    requires
        node_at(i, h1, n),
        node_at(i, h2, n),
    ensures
        h1 == h2,
{
    lemma_height_of(i, h1, n);
    lemma_height_of(i, h2, n);
}

/// Returns true iff the index represents the root.
pub fn is_root(index: u64) -> (r: bool)
    ensures
        r == (index == 0),
{
    index == 0
}

/// Returns the index of the left child, given an index.
pub fn left_child(index: u64) -> (r: u64)
    requires
        2 * index + 1 <= u64::MAX,
    ensures
        r == sp_left(index as int),
{
    2 * index + 1
}

/// Returns the index of the right child, given an index.
pub fn right_child(index: u64) -> (r: u64)
    requires
        2 * index + 2 <= u64::MAX,
    ensures
        r == sp_right(index as int),
{
    2 * index + 2
}

/// Returns true iff the given index represents a left child.
pub fn is_left_child(index: u64) -> (r: bool)
    ensures
        r == (index % 2 == 1),
{
    index % 2 == 1
}

/// Returns the index of the sibling, given an index; the root has none.
pub fn sibling(index: u64) -> (r: Option<u64>)
    requires
        index < u64::MAX,
    ensures
        r == if index == 0 {
            Option::<u64>::None
        } else {
            Some((sp_sibling(index as int)) as u64)
        },
{
    if index == 0 {
        None
    } else if is_left_child(index) {
        Some(index + 1)
    } else {
        Some(index - 1)
    }
}

/// Returns the index of the parent, given an index; the root has none.
pub fn parent(index: u64) -> (r: Option<u64>)
    ensures
        r == if index == 0 {
            Option::<u64>::None
        } else {
            Some((sp_parent(index as int)) as u64)
        },
{
    if index > 0 {
        Some((index - 1) / 2)
    } else {
        None
    }
}

/// Maps a leaf slot to its node index at the last level of a tree of the
/// given height.
pub fn convert_index_to_last_level(index: u64, height: usize) -> (r: u64)
    requires
        height <= 63,
        index < pow2(height as nat),
    ensures
        r == sp_leaf(index as int, height as nat),
{
    proof {
        lemma_pow2_shl(height as nat);
        lemma_pow2_pos(height as nat);
        if height < 63 {
            lemma_pow2_strictly_increases(height as nat, 63);
        }
        lemma_pow2_unfold(64);
        vstd::arithmetic::power2::lemma2_to64_rest();
        assert(pow2(height as nat) <= pow2(63));
        assert(index + pow2(height as nat) - 1 <= u64::MAX);
    }
    index + ((1u64 << height) - 1)
}

/// `1u64 << e` computes `pow2(e)` for `e <= 63`.
pub proof fn lemma_pow2_shl(e: nat)
    requires
        e <= 63,
    ensures
        (1u64 << e) == pow2(e),
    decreases e,
{
    if e == 0 {
        let eu = e as u64;
        assert((1u64 << eu) == 1) by (bit_vector)
            requires
                eu == 0,
        ;
        vstd::arithmetic::power2::lemma2_to64();
        assert((1u64 << e) == pow2(e));
    } else {
        lemma_pow2_shl((e - 1) as nat);
        lemma_pow2_unfold(e);
        lemma_pow2_strictly_increases((e - 1) as nat, 64);
        vstd::arithmetic::power2::lemma2_to64_rest();
        let d = (e - 1) as u64;
        assert((1u64 << (d + 1)) == 2 * (1u64 << d)) by (bit_vector)
            requires
                d < 63,
        ;
        assert(d + 1 == e);
        assert((1u64 << (d + 1)) == (1u64 << e));
        assert((1u64 << d) == (1u64 << ((e - 1) as nat)));
    }
}

/// Returns the ceiling of the base-2 logarithm of the given number.
fn log2(number: u64) -> (r: u32)
    ensures
        r == clg(number as nat),
{
    proof {
        lemma_clg_le(number as nat);
    }
    let mut x = number;
    let mut m: u32 = 0;
    while x > 1
        invariant
            m + clg(x as nat) == clg(number as nat),
            x <= number,
            clg(number as nat) <= 64,
        decreases x,
    {
        let ghost x0 = x as int;
        proof {
            lemma_div2(x0 + 1);
            lemma_div2(x0);
            assert((x0 + 1) / 2 == x0 / 2 + x0 % 2);
            assert((x0 + 1) / 2 < x0);
        }
        x = x / 2 + x % 2;
        m = m + 1;
    }
    m
}

/// `clg` is at most 64 on `u64` inputs; used to bound the counter in `log2`.
proof fn lemma_clg_le(x: nat)
    requires
        x <= u64::MAX,
    ensures
        clg(x) <= 64,
{
    vstd::arithmetic::power2::lemma2_to64_rest();
    lemma_pow2_unfold(64);
    lemma_clg_bound(x, 64);
}

/// `x <= 2^m` bounds `clg(x)` by `m`.
proof fn lemma_clg_bound(x: nat, m: nat)
    requires
        x <= pow2(m),
    ensures
        clg(x) <= m,
    decreases x,
{
    if x > 1 {
        assert(m >= 1) by {
            if m == 0 {
                vstd::arithmetic::power2::lemma2_to64();
            }
        }
        lemma_pow2_pos((m - 1) as nat);
        lemma_pow2_unfold(m);
        lemma_div2(x as int + 1);
        lemma_clg_bound(((x + 1) / 2) as nat, (m - 1) as nat);
    }
}

/// Returns the height of the tree, given the size of the tree.
pub fn tree_height(tree_size: u64) -> (r: u32)
    ensures
        r == clg(tree_size as nat),
{
    log2(tree_size)
}

} // verus!
