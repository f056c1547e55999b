//! Access proofs to load before refining.
//!
//! Computing a new root from these proofs and a set of changes is not
//! provided: the service this ledger comes from leaves it unfinished.
use vstd::prelude::*;
use crate::hashing::{Hash32, TreeIndex};

verus! {

/// The proof of one accessed leaf: its index, its encoded value and the
/// siblings along its path.
pub struct WitnessItem {
    index: TreeIndex,
    encoded_value: Vec<u8>,
    siblings: [Hash32; 15],
}

/// Proofs of accessed leaves, ordered by index.
pub struct Witness(pub Vec<WitnessItem>);

} // verus!
