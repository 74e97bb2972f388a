//! Generation and verification of consistency proofs.
//!
//! A consistency proof shows that the tree behind a later snapshot is a
//! pure append-only extension of the tree behind an earlier snapshot.
//! It is the concatenation of node digests along one shared copath:
//! when the old leaf count is not a power of two, an anchor digest
//! first fixes the position of the old root inside the new tree, found
//! by climbing the ancestor chains of the old tree's last leaf under
//! both sizes in lockstep until they diverge; the remaining digests are
//! the siblings on the walk from there up to the new root. Verification
//! replays the same walk, recomputing the old and the new root digest
//! from the one sequence of chunks and comparing both against the
//! supplied snapshots.

use vstd::prelude::*;
use vstd::arithmetic::power2::is_pow2;
use vstd::slice::slice_to_vec;

use crate::MAX_LEAVES;
use crate::hashing::{combined_digest, bytes_eq, copy_bytes, parent_hash, append_bytes};
use crate::merkle_tree::{node_digest, CtMerkleTree, RootHash};
use crate::tree_math;
use crate::tree_math::{parent_index, sibling_index, node_is_left, root_index};

verus! {

/// Why a consistency proof was rejected.
#[derive(Clone, Copy, Debug, PartialEq, Eq, Structural)]
pub enum VerificationError {
    /// The proof's byte length is not a multiple of the digest size.
    MalformedProof,
    /// The digests recomputed from the proof do not match the supplied
    /// roots.
    Failure,
}

/// A consistency proof between two snapshots of one tree, stored as
/// the raw concatenation of its digests. The two leaf counts travel
/// out of band.
#[derive(Clone, Debug)]
pub struct ConsistencyProof {
    proof: Vec<u8>,
}

/// A borrowed view of a [`ConsistencyProof`].
#[derive(Clone, Debug)]
pub struct ConsistencyProofRef<'a> {
    proof: &'a [u8],
}

impl View for ConsistencyProof {
    type V = Seq<u8>;

    closed spec fn view(&self) -> Seq<u8> {
        self.proof@
    }
}

impl<'a> View for ConsistencyProofRef<'a> {
    type V = Seq<u8>;

    closed spec fn view(&self) -> Seq<u8> {
        self.proof@
    }
}

impl ConsistencyProof {
    /// Borrows this proof.
    pub fn as_ref(&self) -> (r: ConsistencyProofRef<'_>)
        ensures
            r@ == self@,
    {
        ConsistencyProofRef { proof: self.proof.as_slice() }
    }

    /// The raw byte representation of this proof: the concatenation of
    /// its digests.
    pub fn as_bytes(&self) -> (r: &[u8])
        ensures
            r@ == self@,
    {
        self.proof.as_slice()
    }

    /// Reconstructs a proof from its raw bytes, which must be a whole
    /// number of digests.
    pub fn from_bytes(bytes: &[u8]) -> (r: Self)
        requires
            bytes@.len() % 32 == 0,
        ensures
            r@ == bytes@,
    {
        ConsistencyProof { proof: slice_to_vec(bytes) }
    }
}

impl<'a> ConsistencyProofRef<'a> {
    /// Wraps raw proof bytes received from elsewhere. No shape is
    /// required of them here; verification itself rejects a byte
    /// length that is not a whole number of digests.
    pub fn new(bytes: &'a [u8]) -> (r: Self)
        ensures
            r@ == bytes@,
    {
        ConsistencyProofRef { proof: bytes }
    }
}

/// The point where the ancestor chains of node `a` under leaf count
/// `n` and node `b` under leaf count `m` first diverge: both chains
/// are climbed in lockstep while their parents agree, and the last
/// `n`-side index reached before disagreement is returned. Climbing
/// raises the level each step, so 64 steps always suffice for 64-bit
/// indices.
pub open spec fn divergence_point(a: int, b: int, n: int, m: int, fuel: nat) -> int
    decreases fuel,
{
    if fuel == 0 {
        a
    } else if parent_index(a, n) == parent_index(b, m) {
        divergence_point(parent_index(a, n), parent_index(b, m), n, m, (fuel - 1) as nat)
    } else {
        a
    }
}

/// The concatenated sibling digests on the walk from `cursor` up to
/// the root of the tree with the given leaves.
pub open spec fn copath_digests(leaves: Seq<Seq<u8>>, cursor: int, fuel: nat) -> Seq<u8>
    decreases fuel,
{
    let n = leaves.len() as int;
    if fuel == 0 || cursor == root_index(n) {
        Seq::empty()
    } else {
        node_digest(leaves, sibling_index(cursor, n)) + copath_digests(
            leaves,
            parent_index(cursor, n),
            (fuel - 1) as nat,
        )
    }
}

/// The bytes of the consistency proof from the snapshot with
/// `old_size` leaves to the full tree with the given leaves: empty for
/// a proof from the tree to itself; otherwise the anchor digest at the
/// divergence point of the last old leaf's ancestor chains (omitted
/// when the old tree is a complete subtree, whose own root is the
/// starting point), followed by the sibling digests up to the new
/// root.
pub open spec fn proof_bytes(leaves: Seq<Seq<u8>>, old_size: int) -> Seq<u8> {
    let n = leaves.len() as int;
    if old_size == n {
        Seq::empty()
    } else if is_pow2(old_size) {
        copath_digests(leaves, root_index(old_size), 64)
    } else {
        let s = 2 * (old_size - 1);
        let d = divergence_point(s, s, n, old_size, 64);
        node_digest(leaves, d) + copath_digests(leaves, d, 64)
    }
}

/// Walks the lockstep ancestor climb of [`divergence_point`].
pub(crate) fn divergence_walk(start: u64, n: u64, m: u64) -> (r: u64)
    requires
        1 <= m <= n <= MAX_LEAVES,
    ensures
        r as int == divergence_point(start as int, start as int, n as int, m as int, 64),
{
    let mut a: u64 = start;
    let mut b: u64 = start;
    let mut steps: u64 = 0;
    loop
        invariant
            1 <= m <= n <= MAX_LEAVES,
            steps <= 64,
            divergence_point(start as int, start as int, n as int, m as int, 64)
                == divergence_point(a as int, b as int, n as int, m as int, (64 - steps) as nat),
        decreases 64 - steps,
    {
        if steps == 64 {
            return a;
        }
        let pa: u64 = tree_math::parent(a, n);
        let pb: u64 = tree_math::parent(b, m);
        if pa != pb {
            return a;
        }
        a = pa;
        b = pb;
        steps = steps + 1;
    }
}

impl CtMerkleTree {
    /// Produces the proof that this tree is the result of appending to
    /// the tree formed by its first `subslice_size` leaves. The proof
    /// bytes are a function of the leaves and `subslice_size` alone,
    /// always a whole number of digests, and empty exactly when the
    /// two snapshots coincide.
    pub fn consistency_proof(&self, subslice_size: usize) -> (r: ConsistencyProof)
        requires
            1 <= subslice_size <= self@.len(),
            self@.len() <= MAX_LEAVES,
        ensures
            r@ == proof_bytes(self@, subslice_size as int),
            r@.len() % 32 == 0,
            subslice_size == self@.len() ==> r@.len() == 0,
            subslice_size < self@.len() ==> r@.len() >= 32,
    {
        let n: usize = self.len();
        let mut out: Vec<u8> = Vec::new();
        if subslice_size == n {
            return ConsistencyProof { proof: out };
        }
        let n64: u64 = n as u64;
        let m64: u64 = subslice_size as u64;
        let ghost target = proof_bytes(self@, subslice_size as int);
        let cursor0: u64;
        if !tree_math::is_power_of_two(m64) {
            let start: u64 = 2 * (m64 - 1);
            let anchor: u64 = divergence_walk(start, n64, m64);
            let d = self.node_digest_at(anchor);
            append_bytes(&mut out, &d);
            cursor0 = anchor;
            proof {
                assert(Seq::<u8>::empty() + d@ =~= d@);
            }
        } else {
            cursor0 = tree_math::root_idx(m64);
            proof {
                tree_math::lemma_root_index_grows(m64 as int, self@.len() as int);
            }
        }
        proof {
            assert(out@ + copath_digests(self@, cursor0 as int, 64) == target) by {
                if is_pow2(m64 as int) {
                    assert(out@ =~= Seq::<u8>::empty());
                    assert(Seq::<u8>::empty() + copath_digests(self@, cursor0 as int, 64)
                        =~= copath_digests(self@, cursor0 as int, 64));
                }
            }
        }
        let root_n: u64 = tree_math::root_idx(n64);
        let mut cursor = cursor0;
        let mut steps: u64 = 0;
        while steps < 64 && cursor != root_n
            invariant
                1 <= n64 <= MAX_LEAVES,
                n64 as int == self@.len() as int,
                root_n as int == root_index(self@.len() as int),
                steps <= 64,
                out@.len() % 32 == 0,
                out@.len() >= 32 || (steps == 0 && cursor == cursor0 && cursor0 != root_n),
                out@ + copath_digests(self@, cursor as int, (64 - steps) as nat) == target,
            decreases 64 - steps,
    {
            let sib: u64 = tree_math::sibling(cursor, n64);
            let d = self.node_digest_at(sib);
            let ghost before = out@;
            append_bytes(&mut out, &d);
            proof {
                let rest = copath_digests(
                    self@,
                    parent_index(cursor as int, self@.len() as int),
                    (64 - steps - 1) as nat,
                );
                assert((before + d@) + rest =~= before + (d@ + rest));
            }
            cursor = tree_math::parent(cursor, n64);
            steps = steps + 1;
        }
        proof {
            assert(copath_digests(self@, cursor as int, (64 - steps) as nat)
                =~= Seq::<u8>::empty());
            assert(out@ + Seq::<u8>::empty() =~= out@);
        }
        ConsistencyProof { proof: out }
    }
}

/// The proof bytes split into digest-sized chunks. A trailing fragment
/// shorter than one digest is never produced by honest encoders and is
/// rejected before this split is taken.
pub open spec fn chunk_seq(bytes: Seq<u8>) -> Seq<Seq<u8>>
    decreases bytes.len(),
{
    if bytes.len() < 32 {
        Seq::empty()
    } else {
        seq![bytes.take(32)] + chunk_seq(bytes.skip(32))
    }
}

/// Each chunk is the corresponding 32-byte window of the proof.
proof fn lemma_chunk_seq(bytes: Seq<u8>)
    ensures
        32 * chunk_seq(bytes).len() <= bytes.len(),
        bytes.len() % 32 == 0 ==> 32 * chunk_seq(bytes).len() == bytes.len(),
        forall|i: int|
            0 <= i < chunk_seq(bytes).len() ==> chunk_seq(bytes)[i] == bytes.subrange(
                32 * i,
                32 * i + 32,
            ),
    decreases bytes.len(),
{
    if bytes.len() >= 32 {
        lemma_chunk_seq(bytes.skip(32));
        assert(bytes.len() % 32 == 0 ==> (bytes.len() - 32) % 32 == 0) by {
            vstd::arithmetic::div_mod::lemma_mod_add_multiples_vanish(
                bytes.len() - 32,
                32,
            );
        }
        assert((bytes.len() - 32) % 32 == 0 ==> bytes.len() % 32 == 0) by {
            vstd::arithmetic::div_mod::lemma_mod_add_multiples_vanish(
                bytes.len() - 32,
                32,
            );
        }
        assert(chunk_seq(bytes)[0] == bytes.subrange(0, 32)) by {
            assert(bytes.take(32) =~= bytes.subrange(0, 32));
        }
        assert forall|i: int|
            1 <= i < chunk_seq(bytes).len() implies chunk_seq(bytes)[i] == bytes.subrange(
            32 * i,
            32 * i + 32,
        ) by {
            assert(chunk_seq(bytes)[i] == chunk_seq(bytes.skip(32))[i - 1]);
            assert(chunk_seq(bytes.skip(32))[i - 1] == bytes.skip(32).subrange(
                32 * (i - 1),
                32 * (i - 1) + 32,
            ));
            assert(bytes.skip(32).subrange(32 * (i - 1), 32 * (i - 1) + 32) =~= bytes.subrange(
                32 * i,
                32 * i + 32,
            ));
        }
    }
}

/// Copies the chunk with index `i` out of the proof bytes.
fn read_chunk(bytes: &Vec<u8>, i: usize) -> (r: Vec<u8>)
    requires
        32 * i + 32 <= bytes@.len(),
    ensures
        r@ == bytes@.subrange(32 * i as int, 32 * i as int + 32),
        r@.len() == 32,
{
    let blen: usize = bytes.len();
    let base: usize = 32 * i;
    let mut out: Vec<u8> = Vec::new();
    let mut j: usize = 0;
    while j < 32
        invariant
            j <= 32,
            base == 32 * i,
            base + 32 <= bytes@.len(),
            out@ == bytes@.subrange(base as int, base as int + j as int),
        decreases 32 - j,
    {
        let ghost before = out@;
        out.push(bytes[base + j]);
        proof {
            assert(before + seq![bytes@[base + j]] =~= bytes@.subrange(
                base as int,
                base as int + j + 1,
            ));
        }
        j = j + 1;
    }
    out
}

/// One step of the verification walk for every remaining chunk: the
/// chunk is folded into the running new-tree digest according to the
/// cursor's orientation under the new size, and, while the old-tree
/// cursor has not reached the old root and the chunk sits at its
/// sibling's position, into the running old-tree digest as well.
pub open spec fn walk_state(
    chunks: Seq<Seq<u8>>,
    nh: Seq<u8>,
    nc: int,
    oh: Seq<u8>,
    oc: int,
    n: int,
    m: int,
) -> (Seq<u8>, int, Seq<u8>, int)
    decreases chunks.len(),
{
    if chunks.len() == 0 {
        (nh, nc, oh, oc)
    } else {
        let c = chunks[0];
        let sib = sibling_index(nc, n);
        let nh2 = if node_is_left(nc, n) {
            combined_digest(nh, c)
        } else {
            combined_digest(c, nh)
        };
        let nc2 = parent_index(nc, n);
        let follow = oc != root_index(m) && sib == sibling_index(oc, m);
        let oh2 = if follow {
            if node_is_left(oc, m) {
                combined_digest(oh, c)
            } else {
                combined_digest(c, oh)
            }
        } else {
            oh
        };
        let oc2 = if follow {
            parent_index(oc, m)
        } else {
            oc
        };
        walk_state(chunks.skip(1), nh2, nc2, oh2, oc2, n, m)
    }
}

/// The outcome of verifying `proof` as evidence that the snapshot
/// `(old_digest, m)` is a prefix of the snapshot `(new_digest, n)`:
/// immediate success for equal digests with an empty proof; rejection
/// as malformed exactly when the byte length is not a whole number of
/// digests; otherwise both root digests are recomputed along the walk
/// and compared. A nonempty anchor is required whenever the old size
/// is not a power of two. Note that the immediate-success path goes by
/// the digests alone: the two leaf counts play no part in it.
pub open spec fn verify_outcome(
    new_digest: Seq<u8>,
    n: int,
    old_digest: Seq<u8>,
    m: int,
    proof: Seq<u8>,
) -> Result<(), VerificationError> {
    if old_digest == new_digest && proof.len() == 0 {
        Ok(())
    } else if proof.len() % 32 != 0 {
        Err(VerificationError::MalformedProof)
    } else if !is_pow2(m) && proof.len() == 0 {
        Err(VerificationError::Failure)
    } else {
        let chunks = chunk_seq(proof);
        let c0 = if is_pow2(m) {
            root_index(m)
        } else {
            divergence_point(2 * (m - 1), 2 * (m - 1), n, m, 64)
        };
        let h0 = if is_pow2(m) {
            old_digest
        } else {
            chunks[0]
        };
        let rest = if is_pow2(m) {
            chunks
        } else {
            chunks.skip(1)
        };
        let end = walk_state(rest, h0, c0, h0, c0, n, m);
        if end.2 == old_digest && end.0 == new_digest {
            Ok(())
        } else {
            Err(VerificationError::Failure)
        }
    }
}

/// A proof from a snapshot to itself is the empty byte sequence, and
/// verifying it against that snapshot's own root succeeds.
pub proof fn lemma_self_consistency(leaves: Seq<Seq<u8>>, m: int)
    requires
        m == leaves.len(),
    ensures
        proof_bytes(leaves, m).len() == 0,
        verify_outcome(
            crate::merkle_tree::merkle_root_digest(leaves),
            leaves.len() as int,
            crate::merkle_tree::merkle_root_digest(leaves),
            m,
            proof_bytes(leaves, m),
        ) == Ok::<(), VerificationError>(()),
{
}

/// An empty proof between two snapshots with the same digest always
/// verifies, whatever the two leaf counts are.
pub proof fn lemma_empty_proof_between_equal_digests(digest: Seq<u8>, n: int, m: int)
    ensures
        verify_outcome(digest, n, digest, m, Seq::<u8>::empty()) == Ok::<(), VerificationError>(
            (),
        ),
{
}

/// Verification rejects a proof as malformed exactly when its byte
/// length is not a whole number of digests, whatever the snapshots
/// say.
pub proof fn lemma_malformed_exactly_on_ragged_length(
    new_digest: Seq<u8>,
    n: int,
    old_digest: Seq<u8>,
    m: int,
    proof: Seq<u8>,
)
    ensures
        (proof.len() % 32 != 0) <==> (verify_outcome(new_digest, n, old_digest, m, proof)
            == Err::<(), VerificationError>(VerificationError::MalformedProof)),
{
}

impl RootHash {
    /// Verifies that `proof` shows the snapshot `old_root` to be a
    /// prefix of the snapshot `self`. Succeeds exactly on the proof
    /// bytes that reproduce both root digests; a proof whose length is
    /// not a whole number of digests is malformed, and anything else
    /// that fails to reproduce the digests is a failure. The old
    /// snapshot must be nonempty and no larger than the new one, and
    /// the new leaf count must stay below the overflow guard; the
    /// caller checks these before asking for verification.
    pub fn verify_consistency(&self, old_root: &RootHash, proof: &ConsistencyProofRef<'_>) -> (r:
        Result<(), VerificationError>)
        requires
            1 <= old_root.num_leaves <= self.num_leaves,
            self.num_leaves <= MAX_LEAVES,
        ensures
            r == verify_outcome(
                self.root_hash@,
                self.num_leaves as int,
                old_root.root_hash@,
                old_root.num_leaves as int,
                proof@,
            ),
            old_root.root_hash@ == self.root_hash@ && proof@.len() == 0 ==> r == Ok::<
                (),
                VerificationError,
            >(()),
            proof@.len() % 32 != 0 <==> r == Err::<(), VerificationError>(
                VerificationError::MalformedProof,
            ),
    {
        let n: u64 = self.num_leaves;
        let m: u64 = old_root.num_leaves;
        let pbytes = slice_to_vec(proof.proof);
        if bytes_eq(&old_root.root_hash, &self.root_hash) && pbytes.len() == 0 {
            return Ok(());
        }
        if pbytes.len() % 32 != 0 {
            return Err(VerificationError::MalformedProof);
        }
        proof {
            lemma_chunk_seq(pbytes@);
            vstd::arithmetic::div_mod::lemma_fundamental_div_mod(pbytes@.len() as int, 32);
        }
        let num_chunks: usize = pbytes.len() / 32;
        let ghost chunks = chunk_seq(pbytes@);
        let pow2_old: bool = tree_math::is_power_of_two(m);
        let oldtree_root: u64 = tree_math::root_idx(m);
        let mut idx: usize;
        let mut oc: u64;
        let mut oh: Vec<u8>;
        if pow2_old {
            oc = oldtree_root;
            oh = copy_bytes(&old_root.root_hash);
            idx = 0;
        } else {
            if num_chunks == 0 {
                return Err(VerificationError::Failure);
            }
            let start: u64 = 2 * (m - 1);
            oc = divergence_walk(start, n, m);
            oh = read_chunk(&pbytes, 0);
            idx = 1;
        }
        let mut nc = oc;
        let mut nh = copy_bytes(&oh);
        let ghost c0 = oc as int;
        let ghost h0 = oh@;
        let ghost rest = if pow2_old {
            chunks
        } else {
            chunks.skip(1)
        };
        let ghost target = walk_state(rest, h0, c0, h0, c0, n as int, m as int);
        proof {
            if pow2_old {
                assert(chunks.skip(0) =~= chunks);
            }
        }
        while idx < num_chunks
            invariant
                1 <= m <= n <= MAX_LEAVES,
                pbytes@.len() % 32 == 0,
                chunks == chunk_seq(pbytes@),
                32 * chunks.len() == pbytes@.len(),
                num_chunks == chunks.len(),
                idx <= num_chunks,
                oldtree_root as int == root_index(m as int),
                walk_state(chunks.skip(idx as int), nh@, nc as int, oh@, oc as int, n as int,
                    m as int) == target,
            decreases num_chunks - idx,
        {
            proof {
                lemma_chunk_seq(pbytes@);
                assert(chunks.skip(idx as int)[0] == chunks[idx as int]);
            }
            let chunk = read_chunk(&pbytes, idx);
            let sib: u64 = tree_math::sibling(nc, n);
            let nl: bool = tree_math::is_left(nc, n);
            if nl {
                nh = parent_hash(&nh, &chunk);
            } else {
                nh = parent_hash(&chunk, &nh);
            }
            nc = tree_math::parent(nc, n);
            if oc != oldtree_root {
                let osib: u64 = tree_math::sibling(oc, m);
                if sib == osib {
                    if tree_math::is_left(oc, m) {
                        oh = parent_hash(&oh, &chunk);
                    } else {
                        oh = parent_hash(&chunk, &oh);
                    }
                    oc = tree_math::parent(oc, m);
                }
            }
            proof {
                assert(chunks.skip(idx as int).skip(1) =~= chunks.skip(idx + 1));
            }
            idx = idx + 1;
        }
        proof {
            assert(chunks.skip(num_chunks as int) =~= Seq::<Seq<u8>>::empty());
        }
        let ok_old = bytes_eq(&oh, &old_root.root_hash);
        let ok_new = bytes_eq(&nh, &self.root_hash);
        if ok_old && ok_new {
            Ok(())
        } else {
            Err(VerificationError::Failure)
        }
    }
}

} // verus!
