//! Refinement of the token ledger: validating a batch of signed operations
//! and netting its transfers into one transfer per pair of accounts.
use vstd::prelude::*;
use crate::crypto::{admin, check_signature, ed25519_key_decodes, is_valid_verification_key};
use crate::hashing::hash_eq;
use crate::ledger::{
    canonical_form, canonical_transfer, encode_operations, operations_encoding, stage_add,
    stage_transfer, LedgerError, Operation, SignedOperation, Staged, TransferKey,
};
use crate::order::bytes_lt;

verus! {

/// The token ledger service.
pub struct TokenLedger;

/// One step of validation over the mints kept so far and the transfers
/// netted so far; `None` when a signed amount leaves the range of `i64`.
/// Mints of nothing are dropped; so are transfers of nothing, transfers
/// to oneself, and transfers whose sender is not a valid key.
pub open spec fn validate_step(acc: (Seq<Operation>, Staged), op: Operation) -> Option<
    (Seq<Operation>, Staged),
> {
    match op {
        Operation::Mint { amount, .. } => if amount == 0 {
            Some(acc)
        } else {
            Some((acc.0.push(op), acc.1))
        },
        Operation::Transfer { from, to, token_id, amount } => {
            if !ed25519_key_decodes(from@) || amount == 0 || from@ == to@ {
                Some(acc)
            } else if !bytes_lt(from@, to@) && amount == 0x8000_0000_0000_0000 {
                None
            } else {
                let c = canonical_form(from, to, token_id, amount);
                match stage_add(acc.1, c.0, c.1) {
                    Some(s) => Some((acc.0, s)),
                    None => None,
                }
            }
        },
    }
}

/// Validation of a whole batch, in order.
pub open spec fn validate_all(ops: Seq<SignedOperation>) -> Option<(Seq<Operation>, Staged)>
    decreases ops.len(),
{
    if ops.len() == 0 {
        Some((Seq::empty(), Seq::empty()))
    } else {
        match validate_all(ops.drop_last()) {
            Some(acc) => validate_step(acc, ops.last().operation),
            None => None,
        }
    }
}

/// The transfer that a net amount stands for: from the first counterpart
/// to the second when positive, the other way when negative, none when
/// zero; `None` when the amount cannot be negated.
pub open spec fn net_transfers(s: Staged) -> Option<Seq<Operation>>
    decreases s.len(),
{
    if s.len() == 0 {
        Some(Seq::empty())
    } else {
        match net_transfers(s.drop_last()) {
            None => None,
            Some(prev) => {
                let key = s.last().0;
                let net = s.last().1;
                if net > 0 {
                    Some(
                        prev.push(
                            Operation::Transfer {
                                from: (key.1).0,
                                to: (key.1).1,
                                token_id: key.0,
                                amount: net as u64,
                            },
                        ),
                    )
                } else if net < 0 {
                    if net == i64::MIN {
                        None
                    } else {
                        Some(
                            prev.push(
                                Operation::Transfer {
                                    from: (key.1).1,
                                    to: (key.1).0,
                                    token_id: key.0,
                                    amount: (-net) as u64,
                                },
                            ),
                        )
                    }
                } else {
                    Some(prev)
                }
            },
        }
    }
}

/// The operations that refinement passes on: the kept mints in order,
/// then one transfer per netted pair, in netting order.
pub open spec fn validated_operations(ops: Seq<SignedOperation>) -> Option<Seq<Operation>> {
    match validate_all(ops) {
        Some(acc) => match net_transfers(acc.1) {
            Some(t) => Some(acc.0 + t),
            None => None,
        },
        None => None,
    }
}

proof fn lemma_stage_add_len(s: Staged, key: TransferKey, amount: int)
    ensures
        stage_add(s, key, amount) matches Some(r) ==> r.len() <= s.len() + 1,
    decreases s.len(),
{
    if s.len() > 0 {
        lemma_stage_add_len(s.drop_first(), key, amount);
    }
}

proof fn lemma_validate_all_len(ops: Seq<SignedOperation>)
    ensures
        validate_all(ops) matches Some(acc) ==> acc.0.len() + acc.1.len() <= ops.len(),
    decreases ops.len(),
{
    if ops.len() > 0 {
        lemma_validate_all_len(ops.drop_last());
        if let Some(acc) = validate_all(ops.drop_last()) {
            if let Operation::Transfer { from, to, token_id, amount } = ops.last().operation {
                let c = canonical_form(from, to, token_id, amount);
                lemma_stage_add_len(acc.1, c.0, c.1);
            }
        }
    }
}

/// Once validation fails on a prefix, it fails on the whole batch.
proof fn lemma_validate_all_stuck(ops: Seq<SignedOperation>, i: int)
    requires
        0 <= i <= ops.len(),
        validate_all(ops.take(i)) is None,
    ensures
        validate_all(ops) is None,
    decreases ops.len() - i,
{
    if i < ops.len() {
        assert(ops.take(i + 1).drop_last() =~= ops.take(i));
        lemma_validate_all_stuck(ops, i + 1);
    } else {
        assert(ops.take(i) =~= ops);
    }
}

/// Once netting fails on a prefix, it fails on the whole list.
proof fn lemma_net_transfers_stuck(s: Staged, i: int)
    requires
        0 <= i <= s.len(),
        net_transfers(s.take(i)) is None,
    ensures
        net_transfers(s) is None,
    decreases s.len() - i,
{
    if i < s.len() {
        assert(s.take(i + 1).drop_last() =~= s.take(i));
        lemma_net_transfers_stuck(s, i + 1);
    } else {
        assert(s.take(i) =~= s);
    }
}

proof fn lemma_net_transfers_len(s: Staged)
    ensures
        net_transfers(s) matches Some(t) ==> t.len() <= s.len(),
    decreases s.len(),
{
    if s.len() > 0 {
        lemma_net_transfers_len(s.drop_last());
    }
}

impl TokenLedger {
    /// Validates a batch of operations: mints of something are kept in
    /// order; transfers are checked, then netted per token and pair of
    /// accounts, and passed on after the mints, one per pair with a
    /// non-zero net amount. Signatures are checked but, for ease of use,
    /// not enforced.
    pub fn validate_operations(operations: &Vec<SignedOperation>) -> (r: Result<
        Vec<Operation>,
        LedgerError,
    >)
        ensures
            match r {
                Ok(v) => validated_operations(operations@) == Some(v@),
                Err(e) => validated_operations(operations@) is None && e
                    == LedgerError::AmountOverflow,
            },
    {
        let mut validated: Vec<Operation> = Vec::new();
        let mut staged: Vec<(TransferKey, i64)> = Vec::new();
        let mut i: usize = 0;
        while i < operations.len()
            invariant
                i <= operations@.len(),
                validate_all(operations@.take(i as int)) == Some((validated@, staged@)),
            decreases operations@.len() - i,
        {
            assert(operations@.take(i + 1).drop_last() =~= operations@.take(i as int));
            let signed = operations[i];
            let op = signed.operation;
            match op {
                Operation::Mint { to, token_id, amount } => {
                    let _ = check_signature(&op, &signed.signature, admin());
                    if amount != 0 {
                        validated.push(op);
                    }
                },
                Operation::Transfer { from, to, token_id, amount } => {
                    if is_valid_verification_key(&from) {
                        let _ = check_signature(&op, &signed.signature, from);
                        if amount != 0 && !hash_eq(&from, &to) {
                            if !crate::order::slice_lt(from.as_slice(), to.as_slice()) && amount
                                == 0x8000_0000_0000_0000 {
                                proof {
                                    lemma_validate_all_stuck(operations@, i + 1);
                                }
                                return Err(LedgerError::AmountOverflow);
                            }
                            let transfer = canonical_transfer(from, to, token_id, amount);
                            if !stage_transfer(&mut staged, transfer.0, transfer.1) {
                                proof {
                                    lemma_validate_all_stuck(operations@, i + 1);
                                }
                                return Err(LedgerError::AmountOverflow);
                            }
                        }
                    }
                },
            }
            i = i + 1;
        }
        assert(operations@.take(operations@.len() as int) =~= operations@);
        let ghost mints = validated@;
        let mut j: usize = 0;
        while j < staged.len()
            invariant
                j <= staged@.len(),
                validate_all(operations@) == Some((mints, staged@)),
                net_transfers(staged@.take(j as int)) matches Some(t) && validated@ == mints + t,
            decreases staged@.len() - j,
        {
            assert(staged@.take(j + 1).drop_last() =~= staged@.take(j as int));
            let entry = staged[j];
            let key = entry.0;
            let net: i64 = entry.1;
            if net > 0 {
                validated.push(
                    Operation::Transfer {
                        from: (key.1).0,
                        to: (key.1).1,
                        token_id: key.0,
                        amount: net as u64,
                    },
                );
            } else if net < 0 {
                if net == i64::MIN {
                    proof {
                        lemma_net_transfers_stuck(staged@, j + 1);
                    }
                    return Err(LedgerError::AmountOverflow);
                }
                validated.push(
                    Operation::Transfer {
                        from: (key.1).1,
                        to: (key.1).0,
                        token_id: key.0,
                        amount: (-net) as u64,
                    },
                );
            }
            assert(validated@ =~= mints + net_transfers(staged@.take(j + 1))->Some_0);
            j = j + 1;
        }
        assert(staged@.take(staged@.len() as int) =~= staged@);
        Ok(validated)
    }

    /// Refines a batch of operations into the encoded list of validated
    /// operations that accumulation receives.
    pub fn refine(operations: &Vec<SignedOperation>) -> (r: Result<Vec<u8>, LedgerError>)
        requires
            operations@.len() <= u32::MAX,
        ensures
            match r {
                Ok(bytes) => validated_operations(operations@) matches Some(v) && bytes@
                    == operations_encoding(v),
                Err(e) => validated_operations(operations@) is None && e
                    == LedgerError::AmountOverflow,
            },
    {
        let validated = Self::validate_operations(operations)?;
        proof {
            lemma_validate_all_len(operations@);
            let acc = validate_all(operations@)->Some_0;
            lemma_net_transfers_len(acc.1);
        }
        Ok(encode_operations(&validated))
    }
}

} // verus!
