//! A token ledger built over a small Merkle-hashed key/value state.
use vstd::prelude::*;

pub mod hashing;
pub mod order;
pub mod encoding;
pub mod ledger;
pub mod crypto;
pub mod refine;
pub mod external_client;
pub mod rollup;
pub mod laws;

verus! {

} // verus!
