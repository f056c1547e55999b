//! The external client's state transition: mints apply at once, transfers
//! are netted per token and pair of accounts, then settled in netting
//! order.
use vstd::prelude::*;
use crate::crypto::{admin, check_signature, ed25519_key_decodes, is_valid_verification_key};
use crate::external_client::commitment::committed;
use crate::external_client::state::{balance_read, balance_write, Balance, State, StateView};
use crate::hashing::hash_eq;
use crate::ledger::{
    canonical_form, canonical_transfer, stage_add, stage_transfer, AccountId, LedgerError,
    Operation, SignedOperation, Staged, TokenId, TransferKey,
};
use crate::order::{bytes_lt, slice_lt};

verus! {

/// A batch of signed operations.
pub type Operations = Vec<SignedOperation>;

/// `a + b`, or `u64::MAX` when that does not fit.
pub open spec fn saturating_sum(a: u64, b: u64) -> u64 {
    if a + b > u64::MAX {
        u64::MAX
    } else {
        (a + b) as u64
    }
}

/// A balance read as zero when absent.
pub open spec fn or_zero(b: Option<Balance>) -> Balance {
    match b {
        Some(x) => x,
        None => 0,
    }
}

/// Minting `amount` of a new token to `to`: nothing happens when the token
/// is already known; otherwise the token becomes known and `to` is
/// credited (saturating). The flag is `false` when the balance could not
/// be stored.
pub open spec fn mint_effect(v: StateView, to: AccountId, token_id: TokenId, amount: u64) -> (
    StateView,
    bool,
) {
    if v.tokens.contains(token_id) {
        (v, true)
    } else {
        let v1 = StateView { tokens: v.tokens.push(token_id), ..v };
        let r = balance_read(v1, to, token_id);
        balance_write(r.0, to, token_id, saturating_sum(or_zero(r.1), amount))
    }
}

/// Moving `amount` of `token_id` from `from` to `to`: nothing moves when
/// the token is unknown or the sender holds less than `amount`; otherwise
/// the sender is debited and the receiver credited (saturating). The flag
/// is `false` when a balance could not be stored.
pub open spec fn transfer_effect(
    v: StateView,
    from: AccountId,
    to: AccountId,
    token_id: TokenId,
    amount: u64,
) -> (StateView, bool) {
    if !v.tokens.contains(token_id) {
        (v, true)
    } else {
        let r1 = balance_read(v, from, token_id);
        let from_bal = or_zero(r1.1);
        if from_bal < amount {
            (r1.0, true)
        } else {
            let r2 = balance_read(r1.0, to, token_id);
            let to_bal = or_zero(r2.1);
            let w1 = balance_write(r2.0, from, token_id, (from_bal - amount) as u64);
            if !w1.1 {
                w1
            } else {
                balance_write(w1.0, to, token_id, saturating_sum(to_bal, amount))
            }
        }
    }
}

/// One operation of a batch: mints apply at once, transfers are netted.
/// Mints and transfers of nothing, transfers to oneself and transfers
/// whose sender is not a valid key are skipped.
pub open spec fn transition_step(acc: (StateView, Staged), op: Operation) -> Result<
    (StateView, Staged),
    LedgerError,
> {
    match op {
        Operation::Mint { to, token_id, amount } => {
            if amount == 0 {
                Ok(acc)
            } else {
                let r = mint_effect(acc.0, to, token_id, amount);
                if r.1 {
                    Ok((r.0, acc.1))
                } else {
                    Err(LedgerError::KeyCollision)
                }
            }
        },
        Operation::Transfer { from, to, token_id, amount } => {
            if !ed25519_key_decodes(from@) || amount == 0 || from@ == to@ {
                Ok(acc)
            } else if !bytes_lt(from@, to@) && amount == 0x8000_0000_0000_0000 {
                Err(LedgerError::AmountOverflow)
            } else {
                let c = canonical_form(from, to, token_id, amount);
                match stage_add(acc.1, c.0, c.1) {
                    Some(s) => Ok((acc.0, s)),
                    None => Err(LedgerError::AmountOverflow),
                }
            }
        },
    }
}

/// The operations of a batch, in order.
pub open spec fn transition_ops(v: StateView, ops: Seq<SignedOperation>) -> Result<
    (StateView, Staged),
    LedgerError,
>
    decreases ops.len(),
{
    if ops.len() == 0 {
        Ok((v, Seq::empty()))
    } else {
        match transition_ops(v, ops.drop_last()) {
            Ok(acc) => transition_step(acc, ops.last().operation),
            Err(e) => Err(e),
        }
    }
}

/// Settling one net amount: a positive one moves from the first
/// counterpart to the second, a negative one the other way.
pub open spec fn settle_one(v: StateView, key: TransferKey, net: i64) -> Result<StateView, LedgerError> {
    if net > 0 {
        let r = transfer_effect(v, (key.1).0, (key.1).1, key.0, net as u64);
        if r.1 {
            Ok(r.0)
        } else {
            Err(LedgerError::KeyCollision)
        }
    } else if net < 0 {
        if net == i64::MIN {
            Err(LedgerError::AmountOverflow)
        } else {
            let r = transfer_effect(v, (key.1).1, (key.1).0, key.0, (-net) as u64);
            if r.1 {
                Ok(r.0)
            } else {
                Err(LedgerError::KeyCollision)
            }
        }
    } else {
        Ok(v)
    }
}

/// Settling net amounts in netting order.
pub open spec fn settle(v: StateView, s: Staged) -> Result<StateView, LedgerError>
    decreases s.len(),
{
    if s.len() == 0 {
        Ok(v)
    } else {
        match settle(v, s.drop_last()) {
            Ok(v1) => settle_one(v1, s.last().0, s.last().1),
            Err(e) => Err(e),
        }
    }
}

/// A whole state transition.
pub open spec fn transition(v: StateView, ops: Seq<SignedOperation>) -> Result<StateView, LedgerError> {
    match transition_ops(v, ops) {
        Ok(acc) => settle(acc.0, acc.1),
        Err(e) => Err(e),
    }
}

pub(crate) proof fn lemma_transition_ops_stuck(v: StateView, ops: Seq<SignedOperation>, i: int, e: LedgerError)
    requires
        0 <= i <= ops.len(),
        transition_ops(v, ops.take(i)) == Err::<(StateView, Staged), LedgerError>(e),
    ensures
        transition_ops(v, ops) == Err::<(StateView, Staged), LedgerError>(e),
    decreases ops.len() - i,
{
    if i < ops.len() {
        assert(ops.take(i + 1).drop_last() =~= ops.take(i));
        lemma_transition_ops_stuck(v, ops, i + 1, e);
    } else {
        assert(ops.take(i) =~= ops);
    }
}

proof fn lemma_settle_stuck(v: StateView, s: Staged, i: int, e: LedgerError)
    requires
        0 <= i <= s.len(),
        settle(v, s.take(i)) == Err::<StateView, LedgerError>(e),
    ensures
        settle(v, s) == Err::<StateView, LedgerError>(e),
    decreases s.len() - i,
{
    if i < s.len() {
        assert(s.take(i + 1).drop_last() =~= s.take(i));
        lemma_settle_stuck(v, s, i + 1, e);
    } else {
        assert(s.take(i) =~= s);
    }
}

/// Mints `amount` of a new token to `to`; `false` when the balance could
/// not be stored (another key occupies its leaf).
fn process_mint(state: &mut State, to: AccountId, token_id: TokenId, amount: u64) -> (ok: bool)
    requires
        old(state).wf(),
    ensures
        final(state).wf(),
        (final(state)@, ok) == mint_effect(old(state)@, to, token_id, amount),
        committed(old(state)@.balances) ==> committed(final(state)@.balances),
{
    if state.known_tokens_contains(token_id) {
        return true;
    }
    state.known_tokens_push(token_id);
    let current_bal: u64 = match state.get_balance(to, token_id) {
        Some(b) => b,
        None => 0,
    };
    let new_bal = current_bal.saturating_add(amount);
    state.store_balance(to, token_id, new_bal)
}

/// Moves `amount` of `token_id` from `from` to `to` when the token is known
/// and the sender holds enough; `false` when a balance could not be
/// stored (another key occupies its leaf).
fn process_transfer(
    state: &mut State,
    from: AccountId,
    to: AccountId,
    token_id: TokenId,
    amount: u64,
) -> (ok: bool)
    requires
        old(state).wf(),
    ensures
        final(state).wf(),
        (final(state)@, ok) == transfer_effect(old(state)@, from, to, token_id, amount),
        committed(old(state)@.balances) ==> committed(final(state)@.balances),
{
    if !state.known_tokens_contains(token_id) {
        return true;
    }
    let from_bal: u64 = match state.get_balance(from, token_id) {
        Some(b) => b,
        None => 0,
    };
    if from_bal < amount {
        return true;
    }
    let to_bal: u64 = match state.get_balance(to, token_id) {
        Some(b) => b,
        None => 0,
    };
    if !state.store_balance(from, token_id, from_bal - amount) {
        return false;
    }
    state.store_balance(to, token_id, to_bal.saturating_add(amount))
}

/// Applies a batch of signed operations to the state: mints at once,
/// transfers netted per token and pair of accounts and then settled in
/// netting order. Signatures are checked but, for ease of use, not
/// enforced. Stops with an error where a balance cannot be stored or a
/// signed amount leaves the range of `i64`.
pub fn state_transition(state: &mut State, operations: Operations) -> (r: Result<(), LedgerError>)
    requires
        old(state).wf(),
    ensures
        final(state).wf(),
        match transition(old(state)@, operations@) {
            Ok(v) => r is Ok && final(state)@ == v,
            Err(e) => r == Err::<(), LedgerError>(e),
        },
        committed(old(state)@.balances) ==> committed(final(state)@.balances),
{
    let ghost start = state@;
    let mut staged: Vec<(TransferKey, i64)> = Vec::new();
    let mut i: usize = 0;
    while i < operations.len()
        invariant
            i <= operations@.len(),
            start == old(state)@,
            state.wf(),
            committed(start.balances) ==> committed(state@.balances),
            transition_ops(start, operations@.take(i as int)) == Ok::<
                (StateView, Staged),
                LedgerError,
            >((state@, staged@)),
        decreases operations@.len() - i,
    {
        assert(operations@.take(i + 1).drop_last() =~= operations@.take(i as int));
        let signed = operations[i];
        let op = signed.operation;
        match op {
            Operation::Mint { to, token_id, amount } => {
                let _ = check_signature(&op, &signed.signature, admin());
                if amount != 0 {
                    if !process_mint(state, to, token_id, amount) {
                        proof {
                            lemma_transition_ops_stuck(
                                start,
                                operations@,
                                i + 1,
                                LedgerError::KeyCollision,
                            );
                        }
                        return Err(LedgerError::KeyCollision);
                    }
                }
            },
            Operation::Transfer { from, to, token_id, amount } => {
                if is_valid_verification_key(&from) {
                    let _ = check_signature(&op, &signed.signature, from);
                    if amount != 0 && !hash_eq(&from, &to) {
                        if !slice_lt(from.as_slice(), to.as_slice()) && amount
                            == 0x8000_0000_0000_0000 {
                            proof {
                                lemma_transition_ops_stuck(
                                    start,
                                    operations@,
                                    i + 1,
                                    LedgerError::AmountOverflow,
                                );
                            }
                            return Err(LedgerError::AmountOverflow);
                        }
                        let transfer = canonical_transfer(from, to, token_id, amount);
                        if !stage_transfer(&mut staged, transfer.0, transfer.1) {
                            proof {
                                lemma_transition_ops_stuck(
                                    start,
                                    operations@,
                                    i + 1,
                                    LedgerError::AmountOverflow,
                                );
                            }
                            return Err(LedgerError::AmountOverflow);
                        }
                    }
                }
            },
        }
        i = i + 1;
    }
    assert(operations@.take(operations@.len() as int) =~= operations@);
    let ghost settled_from = state@;
    let mut j: usize = 0;
    while j < staged.len()
        invariant
            j <= staged@.len(),
            start == old(state)@,
            state.wf(),
            committed(start.balances) ==> committed(state@.balances),
            transition_ops(start, operations@) == Ok::<(StateView, Staged), LedgerError>(
                (settled_from, staged@),
            ),
            settle(settled_from, staged@.take(j as int)) == Ok::<StateView, LedgerError>(state@),
        decreases staged@.len() - j,
    {
        assert(staged@.take(j + 1).drop_last() =~= staged@.take(j as int));
        let entry = staged[j];
        let key = entry.0;
        let net_amount: i64 = entry.1;
        if net_amount > 0 {
            if !process_transfer(state, (key.1).0, (key.1).1, key.0, net_amount as u64) {
                proof {
                    lemma_settle_stuck(settled_from, staged@, j + 1, LedgerError::KeyCollision);
                }
                return Err(LedgerError::KeyCollision);
            }
        } else if net_amount < 0 {
            if net_amount == i64::MIN {
                proof {
                    lemma_settle_stuck(settled_from, staged@, j + 1, LedgerError::AmountOverflow);
                }
                return Err(LedgerError::AmountOverflow);
            }
            if !process_transfer(state, (key.1).1, (key.1).0, key.0, (-net_amount) as u64) {
                proof {
                    lemma_settle_stuck(settled_from, staged@, j + 1, LedgerError::KeyCollision);
                }
                return Err(LedgerError::KeyCollision);
            }
        }
        j = j + 1;
    }
    assert(staged@.take(staged@.len() as int) =~= staged@);
    Ok(())
}

} // verus!
