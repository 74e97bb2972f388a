//! Index arithmetic for the virtual complete-binary-tree overlay.
//!
//! Leaves and internal nodes share one numbering: the leaf with append
//! position `i` sits at node index `2 * i`, and a node's height in the
//! tree (its *level*) is the number of trailing one bits of its index.
//! The relatives of a node depend on the current leaf count `n`: a
//! candidate ancestor index that falls outside the node range of the
//! tree is skipped, so the same node can have different parents and
//! siblings as the tree grows.
//!
//! Each executable function mirrors a spec function that pins down its
//! result exactly. The climbing walks are stated with an explicit step
//! budget of 64: a step always raises the level of the candidate index,
//! and a 64-bit index has fewer than 64 levels, so the budget is never
//! exhausted on an index that lies inside the tree.

use vstd::prelude::*;
use vstd::arithmetic::power2::{
    pow2, is_pow2, is_pow2_equiv, lemma_pow2, lemma_pow2_adds, lemma_pow2_pos,
    lemma_pow2_strictly_increases, lemma2_to64, lemma2_to64_rest,
};
use vstd::arithmetic::div_mod::{lemma_fundamental_div_mod, lemma_mod_bound};

use crate::MAX_LEAVES;

verus! {

/// The number of node indices a tree with `n` leaves occupies.
pub open spec fn node_width(n: int) -> int {
    2 * n - 1
}

/// The level of node `x`: the number of trailing one bits of its index.
/// Leaves sit at level zero.
pub open spec fn node_level(x: int) -> nat
    decreases x,
{
    if x <= 0 {
        0
    } else if x % 2 == 0 {
        0
    } else {
        node_level(x / 2) + 1
    }
}

/// Floor of the base-two logarithm of `x` (zero for `x <= 1`).
pub open spec fn floor_lg(x: int) -> nat
    decreases x,
{
    if x <= 1 {
        0
    } else {
        floor_lg(x / 2) + 1
    }
}

/// The root of a tree with `n` leaves: the highest-level node index
/// inside the node range.
pub open spec fn root_index(n: int) -> int {
    pow2(floor_lg(node_width(n))) - 1
}

/// The level-`j` ancestor of node `x` in the unbounded numbering,
/// ignoring the node range of any particular tree.
pub open spec fn ancestor_at(x: int, j: nat) -> int {
    (x / pow2(j + 1) as int) * pow2(j + 1) as int + pow2(j) as int - 1
}

/// The first ancestor of `x` at level `j` or above that lies inside the
/// node range of a tree with `n` leaves. Each step raises the level, so
/// the search is capped at level 64, which no 64-bit index reaches.
pub open spec fn parent_from(x: int, n: int, j: nat) -> int
    decreases 64 - j,
{
    if j >= 64 {
        0
    } else if ancestor_at(x, j) < node_width(n) {
        ancestor_at(x, j)
    } else {
        parent_from(x, n, j + 1)
    }
}

/// The parent of node `x` in a tree with `n` leaves: its nearest
/// strictly-higher-level ancestor inside the node range.
pub open spec fn parent_index(x: int, n: int) -> int {
    parent_from(x, n, node_level(x) + 1)
}

/// The left child of node `x`, which is independent of the leaf count.
/// Level-zero nodes are leaves and have no children.
pub open spec fn left_child_index(x: int) -> int {
    if node_level(x) == 0 {
        0
    } else {
        x - pow2((node_level(x) - 1) as nat)
    }
}

/// Descend along left children from candidate `c` until the index lies
/// inside the node range of a tree with `n` leaves.
pub open spec fn clip_right(c: int, n: int, fuel: nat) -> int
    decreases fuel,
{
    if c < node_width(n) {
        c
    } else if fuel == 0 || node_level(c) == 0 {
        0
    } else {
        clip_right(left_child_index(c), n, (fuel - 1) as nat)
    }
}

/// The right child of node `x` in a tree with `n` leaves: the unbounded
/// right child, clipped leftwards until it lies inside the node range.
pub open spec fn right_child_index(x: int, n: int) -> int {
    if node_level(x) == 0 {
        0
    } else {
        clip_right(x + pow2((node_level(x) - 1) as nat), n, 64)
    }
}

/// The sibling of node `x` in a tree with `n` leaves: the other child
/// of its parent.
pub open spec fn sibling_index(x: int, n: int) -> int {
    let p = parent_index(x, n);
    if x < p {
        right_child_index(p, n)
    } else {
        left_child_index(p)
    }
}

/// Whether node `x` is the left child of its parent in a tree with `n`
/// leaves.
pub open spec fn node_is_left(x: int, n: int) -> bool {
    x < parent_index(x, n)
}

/// A level-`b` node index has at most `b` trailing ones below `pow2(b)`.
proof fn lemma_node_level_bound(x: int, b: nat)
    requires
        0 <= x < pow2(b),
    ensures
        node_level(x) <= b,
    decreases x,
{
    if x > 0 && x % 2 == 1 {
        assert(b >= 1) by {
            if b == 0 {
                assert(pow2(0) == 1) by { lemma2_to64(); }
            }
        }
        assert(pow2(b) == 2 * pow2((b - 1) as nat)) by {
            lemma_pow2_adds((b - 1) as nat, 1);
            lemma2_to64();
        }
        lemma_node_level_bound(x / 2, (b - 1) as nat);
    }
}

/// The floor logarithm of a value below `pow2(b)` is below `b`.
proof fn lemma_floor_lg_bound(x: int, b: nat)
    requires
        1 <= x < pow2(b),
    ensures
        floor_lg(x) < b,
    decreases x,
{
    assert(b >= 1) by {
        if b == 0 {
            assert(pow2(0) == 1) by { lemma2_to64(); }
        }
    }
    if x >= 2 {
        assert(pow2(b) == 2 * pow2((b - 1) as nat)) by {
            lemma_pow2_adds((b - 1) as nat, 1);
            lemma2_to64();
        }
        lemma_floor_lg_bound(x / 2, (b - 1) as nat);
    }
}

/// `floor_lg` picks out the dyadic window containing `x`.
pub proof fn lemma_floor_lg_window(x: int)
    requires
        x >= 1,
    ensures
        pow2(floor_lg(x)) <= x < pow2(floor_lg(x) + 1),
    decreases x,
{
    if x == 1 {
        lemma2_to64();
    } else {
        lemma_floor_lg_window(x / 2);
        let l = floor_lg(x / 2);
        assert(pow2(l + 1) == 2 * pow2(l)) by {
            lemma_pow2_adds(l, 1);
            lemma2_to64();
        }
        assert(pow2(l + 2) == 2 * pow2(l + 1)) by {
            lemma_pow2_adds(l + 1, 1);
            lemma2_to64();
        }
    }
}

/// A value sitting in the dyadic window of exponent `j` has floor
/// logarithm `j`.
pub proof fn lemma_floor_lg_unique(x: int, j: nat)
    requires
        x >= 1,
        pow2(j) <= x < pow2(j + 1),
    ensures
        floor_lg(x) == j,
{
    lemma_floor_lg_window(x);
    let l = floor_lg(x);
    if l < j {
        if l + 1 < j {
            lemma_pow2_strictly_increases(l + 1, j);
        }
        assert(pow2(l + 1) <= pow2(j));
        assert(false);
    }
    if l > j {
        if j + 1 < l {
            lemma_pow2_strictly_increases(j + 1, l);
        }
        assert(pow2(j + 1) <= pow2(l));
        assert(false);
    }
}

/// A node of level `k` has all of its bottom `k` bits set, so its index
/// is at least `pow2(k) - 1`.
proof fn lemma_node_level_lower(x: int)
    requires
        x >= 0,
    ensures
        x >= pow2(node_level(x)) - 1,
    decreases x,
{
    if x > 0 && x % 2 == 1 {
        lemma_node_level_lower(x / 2);
        let k = node_level(x / 2);
        assert(pow2(k + 1) == 2 * pow2(k)) by {
            lemma_pow2_adds(k, 1);
            lemma2_to64();
        }
    } else {
        lemma_pow2_pos(0);
        lemma2_to64();
    }
}

/// The root index strictly grows when a tree whose leaf count is a
/// power of two gains leaves: the old root then names a proper subtree
/// of the new tree, never its root.
pub proof fn lemma_root_index_grows(m: int, n: int)
    requires
        1 <= m < n,
        is_pow2(m),
    ensures
        root_index(m) != root_index(n),
{
    is_pow2_equiv(m);
    let j = choose|i: nat| vstd::arithmetic::power::pow(2, i) == m;
    assert(pow2(j) == m) by {
        lemma_pow2(j);
    }
    lemma_pow2_adds(j, 1);
    lemma2_to64();
    lemma_floor_lg_unique(2 * m - 1, j);
    lemma_floor_lg_window(2 * n - 1);
    let l = floor_lg(2 * n - 1);
    if l <= j {
        if l + 1 < j + 1 {
            lemma_pow2_strictly_increases(l + 1, j + 1);
        }
        assert(pow2(l + 1) <= pow2(j + 1));
        assert(false);
    }
    lemma_pow2_strictly_increases(j, l);
}

/// Computes `pow2(e)` as a `u64`.
pub fn pow2_u64(e: u64) -> (r: u64)
    requires
        e <= 63,
    ensures
        r as nat == pow2(e as nat),
{
    let mut r: u64 = 1;
    let mut i: u64 = 0;
    proof {
        lemma2_to64();
    }
    while i < e
        invariant
            i <= e <= 63,
            r as nat == pow2(i as nat),
        decreases e - i,
    {
        proof {
            lemma_pow2_adds(i as nat, 1);
            lemma2_to64();
            lemma2_to64_rest();
            if i + 1 < 63 {
                lemma_pow2_strictly_increases((i + 1) as nat, 63);
            }
        }
        r = r * 2;
        i = i + 1;
    }
    r
}

/// Computes `pow2(e)` as a `u128`.
pub fn pow2_u128(e: u64) -> (r: u128)
    requires
        e <= 66,
    ensures
        r as nat == pow2(e as nat),
{
    let mut r: u128 = 1;
    let mut i: u64 = 0;
    proof {
        lemma2_to64();
    }
    while i < e
        invariant
            i <= e <= 66,
            r as nat == pow2(i as nat),
        decreases e - i,
    {
        proof {
            lemma_pow2_adds(i as nat, 1);
            lemma2_to64();
            lemma2_to64_rest();
            lemma_pow2_adds(64, 2);
            if i + 1 < 66 {
                lemma_pow2_strictly_increases((i + 1) as nat, 66);
            }
        }
        r = r * 2;
        i = i + 1;
    }
    r
}

/// Computes the level (trailing one bits) of a 64-bit node index.
pub fn level_u64(x: u64) -> (r: u64)
    ensures
        r as nat == node_level(x as int),
        r <= 64,
{
    proof {
        lemma2_to64();
        lemma_pow2_adds(32, 32);
        lemma_node_level_bound(x as int, 64);
    }
    let mut v: u64 = x;
    let mut k: u64 = 0;
    while v % 2 == 1
        invariant
            node_level(x as int) <= 64,
            node_level(x as int) == k as nat + node_level(v as int),
            k as nat <= node_level(x as int),
        decreases v,
    {
        v = v / 2;
        k = k + 1;
    }
    k
}

/// Computes the level (trailing one bits) of a 128-bit candidate index.
fn level_u128(x: u128) -> (r: u64)
    requires
        x < 0x20000000000000000u128,
    ensures
        r as nat == node_level(x as int),
        r <= 65,
{
    proof {
        lemma2_to64();
        lemma_pow2_adds(64, 1);
        lemma_node_level_bound(x as int, 65);
    }
    let mut v: u128 = x;
    let mut k: u64 = 0;
    while v % 2 == 1
        invariant
            node_level(x as int) <= 65,
            node_level(x as int) == k as nat + node_level(v as int),
            k as nat <= node_level(x as int),
        decreases v,
    {
        v = v / 2;
        k = k + 1;
    }
    k
}

/// Computes the floor logarithm of a positive `u64`.
fn floor_lg_u64(x: u64) -> (r: u64)
    requires
        x >= 1,
    ensures
        r as nat == floor_lg(x as int),
        r <= 63,
{
    proof {
        lemma2_to64();
        lemma_pow2_adds(32, 32);
        lemma_floor_lg_bound(x as int, 64);
    }
    let mut v = x;
    let mut l: u64 = 0;
    while v > 1
        invariant
            v >= 1,
            floor_lg(x as int) <= 63,
            floor_lg(x as int) == l as nat + floor_lg(v as int),
            l as nat <= floor_lg(x as int),
        decreases v,
    {
        v = v / 2;
        l = l + 1;
    }
    l
}

/// The root index of a tree with `n` leaves.
pub fn root_idx(n: u64) -> (r: u64)
    requires
        1 <= n <= MAX_LEAVES,
    ensures
        r as int == root_index(n as int),
{
    let w: u64 = 2 * n - 1;
    let l: u64 = floor_lg_u64(w);
    proof {
        lemma2_to64();
        lemma_pow2_adds(32, 31);
        lemma_floor_lg_bound(w as int, 63);
        lemma_pow2_pos(l as nat);
    }
    let p: u64 = pow2_u64(l);
    p - 1
}

/// The parent of node `x` in a tree with `n` leaves.
pub fn parent(x: u64, n: u64) -> (r: u64)
    requires
        1 <= n <= MAX_LEAVES,
    ensures
        r as int == parent_index(x as int, n as int),
{
    let k: u64 = level_u64(x);
    let w: u64 = 2 * n - 1;
    let mut j: u64 = k + 1;
    let mut p: u128 = pow2_u128(j + 1);
    let xw: u128 = x as u128;
    while j < 64
        invariant
            1 <= n <= MAX_LEAVES,
            w == 2 * n - 1,
            xw == x as int,
            k + 1 <= j <= 65,
            p as nat == pow2((j + 1) as nat),
            parent_index(x as int, n as int) == parent_from(x as int, n as int, j as nat),
        decreases 64 - j,
    {
        proof {
            lemma_pow2_adds(j as nat, 1);
            lemma_pow2_pos(j as nat);
            lemma2_to64();
            lemma_pow2_adds(64, 1);
            lemma_pow2_adds((j + 1) as nat, 1);
            if j + 1 < 64 {
                lemma_pow2_strictly_increases((j + 1) as nat, 64);
            }
            lemma_fundamental_div_mod(xw as int, p as int);
            lemma_mod_bound(xw as int, p as int);
            assert((xw as int / p as int) * (p as int) <= xw as int);
        }
        let half: u128 = p / 2;
        proof {
            assert(p as int == 2 * pow2(j as nat));
            assert(half as int == pow2(j as nat));
        }
        let a: u128 = (xw / p) * p + half - 1;
        assert(a as int == ancestor_at(x as int, j as nat));
        if a < w as u128 {
            return a as u64;
        }
        j = j + 1;
        p = p * 2;
    }
    0
}

/// The left child of node `x`. Returns zero for a leaf, which has no
/// children; callers only descend from internal nodes.
pub fn left_child(x: u64) -> (r: u64)
    ensures
        r as int == left_child_index(x as int),
{
    let k: u64 = level_u64(x);
    if k == 0 {
        0
    } else {
        proof {
            lemma_node_level_lower(x as int);
            lemma_pow2_adds((k - 1) as nat, 1);
            lemma2_to64();
            lemma_pow2_pos((k - 1) as nat);
        }
        x - pow2_u64(k - 1)
    }
}

/// The right child of node `x` in a tree with `n` leaves.
pub fn right_child(x: u64, n: u64) -> (r: u64)
    requires
        1 <= n <= MAX_LEAVES,
    ensures
        r as int == right_child_index(x as int, n as int),
{
    let k: u64 = level_u64(x);
    if k == 0 {
        return 0;
    }
    let w = (2 * n - 1) as u128;
    proof {
        lemma2_to64();
        lemma_pow2_adds(64, 1);
        lemma_pow2_strictly_increases(63, 64);
        if k >= 1 && k - 1 < 63 {
            lemma_pow2_strictly_increases((k - 1) as nat, 63);
        }
    }
    let mut c: u128 = x as u128 + pow2_u128(k - 1);
    let ghost start = c as int;
    let mut fuel: u64 = 64;
    loop
        invariant
            1 <= n <= MAX_LEAVES,
            w == 2 * n - 1,
            fuel <= 64,
            c < 0x20000000000000000u128,
            right_child_index(x as int, n as int) == clip_right(c as int, n as int, fuel as nat),
        decreases fuel,
    {
        if c < w {
            return c as u64;
        }
        let kl: u64 = level_u128(c);
        if fuel == 0 || kl == 0 {
            return 0;
        }
        proof {
            lemma_node_level_lower(c as int);
            lemma_pow2_adds((kl - 1) as nat, 1);
            lemma2_to64();
            lemma_pow2_pos((kl - 1) as nat);
        }
        c = c - pow2_u128(kl - 1);
        fuel = fuel - 1;
    }
}

/// The sibling of node `x` in a tree with `n` leaves.
pub fn sibling(x: u64, n: u64) -> (r: u64)
    requires
        1 <= n <= MAX_LEAVES,
    ensures
        r as int == sibling_index(x as int, n as int),
{
    let p: u64 = parent(x, n);
    if x < p {
        right_child(p, n)
    } else {
        left_child(p)
    }
}

/// Whether node `x` is the left child of its parent in a tree with `n`
/// leaves.
pub fn is_left(x: u64, n: u64) -> (r: bool)
    requires
        1 <= n <= MAX_LEAVES,
    ensures
        r == node_is_left(x as int, n as int),
{
    let p: u64 = parent(x, n);
    x < p
}

/// Whether `m` is a power of two.
pub fn is_power_of_two(m: u64) -> (r: bool)
    ensures
        r == is_pow2(m as int),
{
    proof {
        reveal(is_pow2);
    }
    if m == 0 {
        return false;
    }
    let mut v: u64 = m;
    while v > 1 && v % 2 == 0
        invariant
            v >= 1,
            is_pow2(m as int) == is_pow2(v as int),
        decreases v,
    {
        proof {
            reveal(is_pow2);
        }
        v = v / 2;
    }
    proof {
        reveal(is_pow2);
    }
    v == 1
}

} // verus!
