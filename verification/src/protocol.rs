//! The proof-wire envelope: a partial tree together with the public claim
//! that a verifier commits after a successful check.

use vstd::prelude::*;

verus! {

use crate::hasher::{FieldExt, BYTE32};
use crate::smt::PartialTree;

/// The public claim bound by a surrounding prover: the root digest.
#[derive(Clone, Copy, Debug)]
pub struct ProofClaims {
    pub root: BYTE32,
}

/// What is shipped to the verifier: a partial tree and the claim over it.
#[derive(Clone, Debug)]
pub struct ProvingInput {
    pub pt: PartialTree<BYTE32, 32>,
    pub claim: ProofClaims,
}

impl ProvingInput {
    /// Whether the claimed root is the partial tree's own root; a verifier
    /// should check this before committing the claim.
    pub fn claim_matches(&self) -> (r: bool)
        ensures
            r == (self.claim.root == self.pt.root),
    {
        self.claim.root.eq_value(&self.pt.root)
    }
}

} // verus!
