//! Leaf-type and hasher capabilities, the error kinds, and the SHA-256
//! two-to-one hasher over 32-byte digests.

use vstd::prelude::*;

verus! {

/// Error enum for sparse Merkle tree operations.
#[derive(Clone, Copy, Debug, PartialEq, Eq, Structural)]
pub enum MerkleError {
    /// The given leaf is present on neither side of the first path pair.
    InvalidLeaf,
    /// A running hash matches neither side of the next path pair.
    InvalidPathNodes,
    /// A recomputed parent digest differs from the stored one.
    HashMismatch,
    /// The two-to-one hasher reported a failure.
    HasherError,
}

/// Capabilities the core needs of a leaf/digest type: plain-copy values
/// with a decidable equality that agrees with mathematical equality.
pub trait FieldExt: Copy + Sized {
    /// Value equality, reflected into specifications.
    fn eq_value(&self, other: &Self) -> (r: bool)
        ensures
            r == (*self == *other),
    ;
}

/// A pure, deterministic two-to-one hash over `F`, with a fallible
/// executable entry point.
pub trait FieldHasher<F: FieldExt>: Sized {
    /// The mathematical hash function this hasher computes.
    spec fn spec_hash(&self, left: F, right: F) -> F;

    /// On which input pairs a call returns a value rather than an error.
    spec fn hash_ok(&self, left: F, right: F) -> bool;

    /// Hash two nodes into one.
    fn hash(&self, nodes: [F; 2]) -> (r: Result<F, MerkleError>)
        ensures
            r is Ok <==> self.hash_ok(nodes[0], nodes[1]),
            r matches Ok(v) ==> v == self.spec_hash(nodes[0], nodes[1]),
            r matches Err(e) ==> e == MerkleError::HasherError,
    ;
}

/// A hasher that succeeds on every input pair.
pub open spec fn hasher_total<F: FieldExt, H: FieldHasher<F>>(h: H) -> bool {
    forall|l: F, r: F| h.hash_ok(l, r)
}

/// A 32-byte digest, the leaf type used with SHA-256.
pub type BYTE32 = [u8; 32];

impl FieldExt for [u8; 32] {
    fn eq_value(&self, other: &Self) -> (r: bool) {
        let mut i: usize = 0;
        while i < 32
            invariant
                i <= 32,
                forall|j: int| 0 <= j < i ==> self[j] == other[j],
            decreases 32 - i,
        {
            if self[i] != other[i] {
                return false;
            }
            i += 1;
        }
        proof {
            vstd::array::axiom_array_ext_equal::<u8, 32>(*self, *other);
            assert(*self =~= *other);
        }
        true
    }
}

/// What SHA-256 returns on a pair of 32-byte blocks.
pub uninterp spec fn sha256_pair(left: [u8; 32], right: [u8; 32]) -> [u8; 32];

/// Relies on `sha2::Sha256` (`new`/`update`/`finalize`): the SHA-256 digest
/// of the 64 concatenated input bytes, a function of the inputs alone.
#[verifier::external_body]
fn sha256_hash_pair(left: &[u8; 32], right: &[u8; 32]) -> (r: [u8; 32])
    ensures
        r == sha256_pair(*left, *right),
{
    let mut h = <sha2::Sha256 as sha2::Digest>::new();
    sha2::Digest::update(&mut h, left);
    sha2::Digest::update(&mut h, right);
    let out = sha2::Digest::finalize(h);
    let mut s32 = [0u8; 32];
    s32.copy_from_slice(&out);
    s32
}

/// The SHA-256 two-to-one hasher: concatenate the two 32-byte nodes and
/// digest; the output is already 32 bytes. It never fails.
#[derive(Clone, Copy, Debug)]
pub struct Sha256Hasher;

impl FieldHasher<[u8; 32]> for Sha256Hasher {
    open spec fn spec_hash(&self, left: [u8; 32], right: [u8; 32]) -> [u8; 32] {
        sha256_pair(left, right)
    }

    open spec fn hash_ok(&self, left: [u8; 32], right: [u8; 32]) -> bool {
        true
    }

    fn hash(&self, nodes: [[u8; 32]; 2]) -> (r: Result<[u8; 32], MerkleError>) {
        let left = nodes[0];
        let right = nodes[1];
        Ok(sha256_hash_pair(&left, &right))
    }
}

} // verus!
