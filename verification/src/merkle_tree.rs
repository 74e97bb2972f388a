//! The append-only Merkle tree and its root snapshots.
//!
//! The digest of a set of leaves is defined the standard way: a single
//! leaf hashes to its leaf digest, and a larger range splits at the
//! largest power of two below its length, combining the two subtree
//! digests. Every internal node of the virtual tree covers a contiguous
//! leaf range determined by its index, so node digests are computed
//! from the stored leaves on demand.

use vstd::prelude::*;
use vstd::arithmetic::power2::{pow2, lemma_pow2_pos, lemma2_to64, lemma_pow2_adds};

use crate::hashing::{
    leaf_digest, combined_digest, sha256_of, zero_digest, leaf_hash, parent_hash, zeros32,
    empty_hash,
};
use crate::tree_math::{node_level, floor_lg, lemma_floor_lg_unique, lemma_floor_lg_window};
use crate::tree_math::{level_u64, pow2_u128};

verus! {

/// The split point of a leaf range of length `l >= 2`: the largest
/// power of two strictly below `l`.
pub open spec fn split_point(l: int) -> int {
    pow2(floor_lg(l - 1)) as int
}

#[via_fn]
proof fn merkle_root_digest_decreases(leaves: Seq<Seq<u8>>) {
    if leaves.len() >= 2 {
        lemma_split_point_bounds(leaves.len() as int);
    }
}

/// The split point of a range of length `l >= 2` is at least one and
/// strictly below `l`.
pub proof fn lemma_split_point_bounds(l: int)
    requires
        l >= 2,
    ensures
        1 <= split_point(l) < l,
{
    lemma_pow2_pos(floor_lg(l - 1));
    lemma_floor_lg_window(l - 1);
}

/// The root digest of a sequence of leaves: empty input hashes to the
/// digest of the empty byte string, a single leaf to its leaf digest,
/// and a longer range to the combination of the digests of its two
/// halves, split at the largest power of two below the length.
pub open spec fn merkle_root_digest(leaves: Seq<Seq<u8>>) -> Seq<u8>
    decreases leaves.len(),
    via merkle_root_digest_decreases
{
    if leaves.len() == 0 {
        sha256_of(Seq::<u8>::empty())
    } else if leaves.len() == 1 {
        leaf_digest(leaves[0])
    } else {
        let k = split_point(leaves.len() as int);
        combined_digest(merkle_root_digest(leaves.take(k)), merkle_root_digest(leaves.skip(k)))
    }
}

/// The first leaf position covered by node index `x`.
pub open spec fn node_range_start(x: int) -> int {
    (x / pow2(node_level(x) + 1) as int) * pow2(node_level(x)) as int
}

/// The digest of the node with index `x` in a tree with the given
/// leaves: the root digest of the leaf range the node covers, clipped
/// to the number of leaves present. An index whose range lies wholly
/// beyond the leaves names no node; it gets the all-zero placeholder.
pub open spec fn node_digest(leaves: Seq<Seq<u8>>, x: int) -> Seq<u8> {
    let k = node_level(x);
    let start = node_range_start(x);
    let cap = start + pow2(k) as int;
    let end = if cap <= leaves.len() as int {
        cap
    } else {
        leaves.len() as int
    };
    if x < 0 || start >= leaves.len() as int {
        zero_digest()
    } else {
        merkle_root_digest(leaves.subrange(start, end))
    }
}

/// One snapshot of the tree: the root digest together with the leaf
/// count it was computed at.
#[derive(Clone, Debug)]
pub struct RootHash {
    /// The root digest of the snapshot.
    pub root_hash: Vec<u8>,
    /// The number of leaves the snapshot covers.
    pub num_leaves: u64,
}

/// An append-only Merkle tree over byte-string leaves.
#[derive(Clone, Debug)]
pub struct CtMerkleTree {
    leaves: Vec<Vec<u8>>,
}

impl View for CtMerkleTree {
    type V = Seq<Seq<u8>>;

    closed spec fn view(&self) -> Seq<Seq<u8>> {
        self.leaves.deep_view()
    }
}

impl CtMerkleTree {
    /// Creates an empty tree.
    pub fn new() -> (r: Self)
        ensures
            r@ =~= Seq::<Seq<u8>>::empty(),
    {
        CtMerkleTree { leaves: Vec::new() }
    }

    /// The number of leaves appended so far.
    pub fn len(&self) -> (r: usize)
        ensures
            r == self@.len(),
    {
        self.leaves.len()
    }

    /// Appends one leaf at the end of the tree.
    pub fn push(&mut self, leaf: Vec<u8>)
        ensures
            final(self)@ =~= old(self)@.push(leaf@),
    {
        self.leaves.push(leaf);
        proof {
            assert forall|i: int| 0 <= i < self.leaves@.len() implies self.leaves@[i].deep_view()
                == old(self)@.push(leaf@)[i] by {
                assert(self.leaves@[i].deep_view() =~= self.leaves@[i]@);
            }
        }
    }

    /// Computes the digest of the leaf range `[start, end)` by the
    /// standard recursive split.
    fn compute_subtree_hash(&self, start: usize, end: usize) -> (r: Vec<u8>)
        requires
            start < end <= self@.len(),
        ensures
            r@ == merkle_root_digest(self@.subrange(start as int, end as int)),
            r@.len() == 32,
        decreases end - start,
    {
        let ghost range = self@.subrange(start as int, end as int);
        if end - start == 1 {
            let h = leaf_hash(&self.leaves[start]);
            proof {
                assert(self.leaves@[start as int].deep_view() =~= self.leaves@[start as int]@);
                assert(range.len() == 1);
                assert(range[0] == self@[start as int]);
            }
            h
        } else {
            let len: usize = end - start;
            let mut k: usize = 1;
            let ghost mut e: nat = 0;
            proof {
                lemma2_to64();
            }
            while k < len - k
                invariant
                    1 <= k < len <= usize::MAX,
                    k as nat == pow2(e),
                decreases len - k,
            {
                proof {
                    lemma_pow2_adds(e, 1);
                    lemma2_to64();
                    e = e + 1;
                }
                k = k * 2;
            }
            proof {
                lemma_pow2_adds(e, 1);
                lemma2_to64();
                lemma_floor_lg_unique(len - 1, e);
                lemma_split_point_bounds(len as int);
                assert(split_point(len as int) == k as int);
            }
            let left = self.compute_subtree_hash(start, start + k);
            let right = self.compute_subtree_hash(start + k, end);
            let h = parent_hash(&left, &right);
            proof {
                assert(range.take(k as int) =~= self@.subrange(start as int, start + k));
                assert(range.skip(k as int) =~= self@.subrange(start + k, end as int));
            }
            h
        }
    }

    /// Computes the digest of the node with index `x`, or the all-zero
    /// placeholder when `x` lies outside the tree.
    pub(crate) fn node_digest_at(&self, x: u64) -> (r: Vec<u8>)
        ensures
            r@ == node_digest(self@, x as int),
            r@.len() == 32,
    {
        let k: u64 = level_u64(x);
        let p: u128 = pow2_u128(k + 1);
        let half: u128 = pow2_u128(k);
        proof {
            lemma_pow2_adds(k as nat, 1);
            lemma2_to64();
            lemma_pow2_adds(64, 1);
            lemma_pow2_pos(k as nat);
            vstd::arithmetic::div_mod::lemma_fundamental_div_mod(x as int, p as int);
            vstd::arithmetic::div_mod::lemma_mod_bound(x as int, p as int);
            vstd::arithmetic::div_mod::lemma_div_nonincreasing(x as int, p as int);
            if (k as nat) < 64 {
                vstd::arithmetic::power2::lemma_pow2_strictly_increases(k as nat, 64);
            }
            assert(x as int / p as int <= 0xffffffffffffffff);
            assert(half as int <= 0x10000000000000000);
            vstd::arithmetic::mul::lemma_mul_upper_bound(
                x as int / p as int,
                0xffffffffffffffff,
                half as int,
                0x10000000000000000,
            );
        }
        let start128: u128 = ((x as u128) / p) * half;
        let len: usize = self.leaves.len();
        if start128 >= len as u128 {
            return zeros32();
        }
        let start: usize = start128 as usize;
        let cap: u128 = start128 + half;
        let end: usize = if cap <= len as u128 {
            cap as usize
        } else {
            len
        };
        self.compute_subtree_hash(start, end)
    }

    /// The current snapshot: the root digest over all leaves, paired
    /// with the leaf count.
    pub fn root(&self) -> (r: RootHash)
        ensures
            r.num_leaves as int == self@.len() as int,
            r.root_hash@ == merkle_root_digest(self@),
            r.root_hash@.len() == 32,
    {
        let n: usize = self.leaves.len();
        let digest: Vec<u8> = if n == 0 {
            empty_hash()
        } else {
            let h = self.compute_subtree_hash(0, n);
            proof {
                assert(self@.subrange(0, n as int) =~= self@);
            }
            h
        };
        RootHash { root_hash: digest, num_leaves: n as u64 }
    }
}

} // verus!
