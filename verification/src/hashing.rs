//! Domain-separated hashing of leaves and internal nodes.
//!
//! A leaf digest is the hash of a zero byte followed by the leaf's
//! bytes; an internal node's digest is the hash of a one byte followed
//! by the two child digests. The distinct prefixes keep a leaf from
//! ever being confused with an internal node.

use vstd::prelude::*;
use sha2::Digest;

verus! {

/// The SHA-256 digest of `input`. The digest is a function of the
/// input bytes alone; no short formula states its value, so it is left
/// uninterpreted and pinned down only by the executable wrapper below.
pub uninterp spec fn sha256_of(input: Seq<u8>) -> Seq<u8>;

/// The digest stored for a leaf with the given bytes.
pub open spec fn leaf_digest(leaf: Seq<u8>) -> Seq<u8> {
    sha256_of(seq![0u8] + leaf)
}

/// The digest stored for an internal node with child digests `l` and
/// `r`.
pub open spec fn combined_digest(l: Seq<u8>, r: Seq<u8>) -> Seq<u8> {
    sha256_of(seq![1u8] + l + r)
}

/// Relies on sha2::Sha256: the digest is a pure function of the input
/// bytes and is always 32 bytes long.
#[verifier::external_body]
fn sha256(input: &Vec<u8>) -> (r: Vec<u8>)
    ensures
        r@ == sha256_of(input@),
        r@.len() == 32,
{
    sha2::Sha256::digest(input.as_slice()).to_vec()
}

/// Appends the bytes of `src` to `dst`.
pub(crate) fn append_bytes(dst: &mut Vec<u8>, src: &Vec<u8>)
    ensures
        final(dst)@ == old(dst)@ + src@,
{
    let mut i: usize = 0;
    while i < src.len()
        invariant
            i <= src@.len(),
            dst@ == old(dst)@ + src@.take(i as int),
        decreases src@.len() - i,
    {
        dst.push(src[i]);
        proof {
            assert(old(dst)@ + src@.take(i as int) + seq![src@[i as int]] =~= old(dst)@
                + src@.take(i + 1));
        }
        i = i + 1;
    }
    proof {
        assert(src@.take(src@.len() as int) =~= src@);
    }
}

/// Hashes the empty byte sequence: the root digest of the empty tree.
pub(crate) fn empty_hash() -> (r: Vec<u8>)
    ensures
        r@ == sha256_of(Seq::<u8>::empty()),
        r@.len() == 32,
{
    let buf: Vec<u8> = Vec::new();
    proof {
        assert(buf@ =~= Seq::<u8>::empty());
    }
    sha256(&buf)
}

/// Computes the digest of a leaf with the given bytes.
pub(crate) fn leaf_hash(leaf: &Vec<u8>) -> (r: Vec<u8>)
    ensures
        r@ == leaf_digest(leaf@),
        r@.len() == 32,
{
    let mut buf: Vec<u8> = Vec::new();
    buf.push(0u8);
    append_bytes(&mut buf, leaf);
    proof {
        assert(buf@ =~= seq![0u8] + leaf@);
    }
    sha256(&buf)
}

/// Computes the digest of an internal node from its child digests.
pub(crate) fn parent_hash(l: &Vec<u8>, r: &Vec<u8>) -> (h: Vec<u8>)
    ensures
        h@ == combined_digest(l@, r@),
        h@.len() == 32,
{
    let mut buf: Vec<u8> = Vec::new();
    buf.push(1u8);
    append_bytes(&mut buf, l);
    append_bytes(&mut buf, r);
    proof {
        assert(buf@ =~= seq![1u8] + l@ + r@);
    }
    sha256(&buf)
}

/// The 32-byte all-zero sequence, the placeholder digest of a node
/// index that lies outside the tree.
pub open spec fn zero_digest() -> Seq<u8> {
    Seq::new(32, |i: int| 0u8)
}

/// Returns 32 zero bytes.
pub(crate) fn zeros32() -> (r: Vec<u8>)
    ensures
        r@ == zero_digest(),
        r@.len() == 32,
{
    let mut buf: Vec<u8> = Vec::new();
    let mut i: usize = 0;
    while i < 32
        invariant
            i <= 32,
            buf@.len() == i,
            forall|j: int| 0 <= j < i ==> buf@[j] == 0u8,
        decreases 32 - i,
    {
        buf.push(0u8);
        i = i + 1;
    }
    proof {
        assert(buf@ =~= zero_digest());
    }
    buf
}

/// Copies a byte vector.
pub(crate) fn copy_bytes(src: &Vec<u8>) -> (r: Vec<u8>)
    ensures
        r@ == src@,
{
    let mut buf: Vec<u8> = Vec::new();
    append_bytes(&mut buf, src);
    proof {
        assert(buf@ =~= src@);
    }
    buf
}

/// Compares two byte vectors for equality of contents.
pub(crate) fn bytes_eq(a: &Vec<u8>, b: &Vec<u8>) -> (r: bool)
    ensures
        r == (a@ == b@),
{
    if a.len() != b.len() {
        return false;
    }
    let mut i: usize = 0;
    while i < a.len()
        invariant
            i <= a@.len(),
            a@.len() == b@.len(),
            forall|j: int| 0 <= j < i ==> a@[j] == b@[j],
        decreases a@.len() - i,
    {
        if a[i] != b[i] {
            return false;
        }
        i = i + 1;
    }
    proof {
        assert(a@ =~= b@);
    }
    true
}

} // verus!
