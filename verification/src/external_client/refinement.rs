//! Refinement over a partial state: rebuild the state from the witness,
//! replay the operations, and report the roots before and after.
use vstd::prelude::*;
use crate::encoding::push_bytes;
use crate::external_client::merkle::{read_node, tree_root, ROOT_INDEX};
use crate::external_client::state::{state_root, witness_reset, Balance, State, StateView, Witness};
use crate::external_client::state_tree::{pairs_view, replay, witness_start, StateTreeView};
use crate::external_client::transition::{state_transition, transition, Operations};
use crate::hashing::Hash32;
use crate::ledger::LedgerError;

verus! {

/// The external client service.
pub struct TokenLedgerExternalClient;

/// What refinement receives: the operations and the witness of the state
/// they apply to.
pub struct Payload {
    pub operations: Operations,
    pub witness: Witness,
}

/// Why refinement failed.
#[derive(Clone, Copy, Debug, PartialEq, Eq)]
pub enum RefineError {
    /// The witness does not rebuild a state (a balance moves its root).
    BadWitness,
    /// The state transition stopped.
    Ledger(LedgerError),
}

/// The partial state that a witness rebuilds, if any.
pub open spec fn witness_state(w: Witness) -> Option<StateView> {
    match replay(
        witness_start::<Balance>(w.hashes@),
        pairs_view(w.key_value_balances@),
        tree_root(witness_start::<Balance>(w.hashes@).tree),
    ) {
        Some(t) => Some(
            StateView { balances: witness_reset(t), tokens: w.token_ids@, token_witness: w.token_ids@ },
        ),
        None => None,
    }
}

/// A state after its root was read.
pub open spec fn root_read(v: StateView) -> StateView {
    StateView {
        balances: StateTreeView { tree: read_node(v.balances.tree, ROOT_INDEX as int), ..v.balances },
        ..v
    }
}

/// The roots before and after applying `ops` to the state that `w`
/// rebuilds.
pub open spec fn refined_roots(ops: Seq<crate::ledger::SignedOperation>, w: Witness) -> Result<
    (Seq<u8>, Seq<u8>),
    RefineError,
> {
    match witness_state(w) {
        None => Err(RefineError::BadWitness),
        Some(v0) => match transition(root_read(v0), ops) {
            Err(e) => Err(RefineError::Ledger(e)),
            Ok(v1) => Ok((state_root(v0), state_root(v1))),
        },
    }
}

/// The message that refinement passes to accumulation: the previous root
/// followed by the new root.
pub fn encode_roots(previous_root: &Hash32, new_root: &Hash32) -> (bytes: Vec<u8>)
    ensures
        bytes@ == previous_root@ + new_root@,
{
    let mut out: Vec<u8> = Vec::new();
    push_bytes(&mut out, previous_root.as_slice());
    push_bytes(&mut out, new_root.as_slice());
    assert(out@ =~= previous_root@ + new_root@);
    out
}

impl TokenLedgerExternalClient {
    /// Rebuilds the partial state from the witness, applies the operations,
    /// and returns the state roots before and after.
    pub fn refine_roots(operations: Operations, witness: Witness) -> (r: Result<
        (Hash32, Hash32),
        RefineError,
    >)
        ensures
            match refined_roots(operations@, witness) {
                Ok(roots) => r matches Ok(h) && h.0@ == roots.0 && h.1@ == roots.1,
                Err(e) => r == Err::<(Hash32, Hash32), RefineError>(e),
            },
    {
        let ghost w = witness;
        let mut partial_state = match State::from_witness(witness) {
            Some(s) => s,
            None => return Err(RefineError::BadWitness),
        };
        let previous_root = partial_state.get_root();
        match state_transition(&mut partial_state, operations) {
            Ok(()) => {},
            Err(e) => return Err(RefineError::Ledger(e)),
        }
        let new_root = partial_state.get_root();
        Ok((previous_root, new_root))
    }
}

/// Refines a decoded payload: the encoded pair of roots, and the number of
/// operations.
pub fn refine_payload(payload: Payload) -> (r: Result<(Vec<u8>, usize), RefineError>)
    ensures
        match refined_roots(payload.operations@, payload.witness) {
            Ok(roots) => r matches Ok(out) && out.0@ == roots.0 + roots.1 && out.1
                == payload.operations@.len(),
            Err(e) => r == Err::<(Vec<u8>, usize), RefineError>(e),
        },
{
    let Payload { operations, witness } = payload;
    let operations_len = operations.len();
    let (previous_root, new_root) = TokenLedgerExternalClient::refine_roots(operations, witness)?;
    Ok((encode_roots(&previous_root, &new_root), operations_len))
}

} // verus!
