//! A rollup-style variant of the ledger state: accounts live off chain,
//! the chain keeps only the state root.
use vstd::prelude::*;
use crate::hashing::{digest_of, hash_bytes, Hash32};

pub mod accumulation;
pub mod state;
pub mod witness;

pub use crate::hashing::{hash_multiple, hash_pair, tree_index_from_key};

verus! {

/// The rollup token ledger service.
pub struct TokenLedgerRollup;

/// What rollup refinement receives: the operations and the access proofs
/// of the state they apply to.
pub struct Payload {
    pub operations: Vec<crate::ledger::SignedOperation>,
    pub witness: witness::Witness,
}

/// The hash of a key (the digest that its tree index is taken from).
pub fn hash_key(k: &[u8]) -> (h: Hash32)
    ensures
        h@ == digest_of(k@),
{
    hash_bytes(k)
}

} // verus!
