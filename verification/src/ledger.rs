//! Ledger operations, their encoding, and the netting of transfers between
//! two parties.
use vstd::prelude::*;
use crate::encoding::{le_bytes, natural_encoding, push_bytes, push_length, push_u32, push_u64};
use crate::hashing::hash_eq;
use crate::order::{bytes_lt, lemma_bytes_lt_irreflexive, lemma_bytes_lt_total, slice_lt};

verus! {

/// A unique identifier for a token type.
pub type TokenId = u32;

/// An account identifier (a 32-byte public key).
pub type AccountId = [u8; 32];

/// The two counterparts of a transfer, in canonical order: who sends is
/// not implied, so that transfers in both directions between the same
/// accounts net out.
pub type Counterparts = (AccountId, AccountId);

/// A netting key: the token and the two counterparts.
pub type TransferKey = (TokenId, Counterparts);

/// Operations that can be submitted to the token ledger.
#[derive(Clone, Copy, Debug, PartialEq, Eq)]
pub enum Operation {
    Mint { to: AccountId, token_id: TokenId, amount: u64 },
    Transfer { from: AccountId, to: AccountId, token_id: TokenId, amount: u64 },
}

/// An operation with its authorisation signature (64 bytes of Ed25519).
#[derive(Clone, Copy, Debug, PartialEq, Eq)]
pub struct SignedOperation {
    pub operation: Operation,
    pub signature: [u8; 64],
}

/// Why processing a batch of operations stopped.
#[derive(Clone, Copy, Debug, PartialEq, Eq)]
pub enum LedgerError {
    /// A signed amount left the range of `i64`.
    AmountOverflow,
    /// A balance key landed on a tree slot that holds another key.
    KeyCollision,
}

/// The encoding of an operation: the variant's index (0 for a mint, 1 for
/// a transfer), then its fields in order; accounts as their 32 bytes,
/// integers little-endian.
pub open spec fn operation_encoding(op: Operation) -> Seq<u8> {
    match op {
        Operation::Mint { to, token_id, amount } => seq![0u8] + to@ + le_bytes(token_id as nat, 4)
            + le_bytes(amount as nat, 8),
        Operation::Transfer { from, to, token_id, amount } => seq![1u8] + from@ + to@ + le_bytes(
            token_id as nat,
            4,
        ) + le_bytes(amount as nat, 8),
    }
}

/// Appends the encoding of `op`.
pub fn push_operation(out: &mut Vec<u8>, op: &Operation)
    ensures
        final(out)@ == old(out)@ + operation_encoding(*op),
{
    let ghost start = out@;
    match op {
        Operation::Mint { to, token_id, amount } => {
            out.push(0u8);
            push_bytes(out, to.as_slice());
            push_u32(out, *token_id);
            push_u64(out, *amount);
        },
        Operation::Transfer { from, to, token_id, amount } => {
            out.push(1u8);
            push_bytes(out, from.as_slice());
            push_bytes(out, to.as_slice());
            push_u32(out, *token_id);
            push_u64(out, *amount);
        },
    }
    assert(out@ =~= start + operation_encoding(*op));
}

/// The encoding of an operation, the message that its signature covers.
pub fn encode_operation(op: &Operation) -> (bytes: Vec<u8>)
    ensures
        bytes@ == operation_encoding(*op),
{
    let mut out: Vec<u8> = Vec::new();
    push_operation(&mut out, op);
    assert(out@ =~= operation_encoding(*op));
    out
}

/// The concatenated encodings of a sequence of operations.
pub open spec fn operations_body(ops: Seq<Operation>) -> Seq<u8>
    decreases ops.len(),
{
    if ops.len() == 0 {
        Seq::empty()
    } else {
        operations_body(ops.drop_last()) + operation_encoding(ops.last())
    }
}

/// The encoding of a sequence of operations: its length, then each one.
pub open spec fn operations_encoding(ops: Seq<Operation>) -> Seq<u8> {
    natural_encoding(ops.len()) + operations_body(ops)
}

/// Encodes a sequence of operations, length first.
pub fn encode_operations(ops: &Vec<Operation>) -> (bytes: Vec<u8>)
    requires
        ops@.len() <= u32::MAX,
    ensures
        bytes@ == operations_encoding(ops@),
{
    let mut out: Vec<u8> = Vec::new();
    push_length(&mut out, ops.len() as u32);
    let ghost head = out@;
    let mut i: usize = 0;
    while i < ops.len()
        invariant
            i <= ops@.len(),
            out@ == head + operations_body(ops@.take(i as int)),
        decreases ops@.len() - i,
    {
        push_operation(&mut out, &ops[i]);
        assert(ops@.take(i + 1).drop_last() =~= ops@.take(i as int));
        i = i + 1;
    }
    assert(ops@.take(ops@.len() as int) =~= ops@);
    out
}

/// The key under which the balance of `account` in `token_id` is stored:
/// the token id (little-endian) followed by the account.
pub open spec fn balance_key_bytes(token_id: TokenId, account: Seq<u8>) -> Seq<u8> {
    le_bytes(token_id as nat, 4) + account
}

/// Builds the storage key of a balance.
pub fn balance_key(token_id: TokenId, account: &AccountId) -> (key: Vec<u8>)
    ensures
        key@ == balance_key_bytes(token_id, account@),
{
    let mut out: Vec<u8> = Vec::new();
    push_u32(&mut out, token_id);
    push_bytes(&mut out, account.as_slice());
    assert(out@ =~= balance_key_bytes(token_id, account@));
    out
}

/// `amount` read as a two's complement `i64` (as `amount as i64` does).
pub open spec fn as_signed(amount: u64) -> int {
    if amount <= i64::MAX {
        amount as int
    } else {
        amount as int - 0x1_0000_0000_0000_0000
    }
}

/// The canonical form of a transfer: the lesser account first, and the
/// amount negated when the sender is not the lesser account.
pub open spec fn canonical_form(from: AccountId, to: AccountId, token_id: TokenId, amount: u64) -> (
    TransferKey,
    int,
) {
    if bytes_lt(from@, to@) {
        ((token_id, (from, to)), as_signed(amount))
    } else {
        ((token_id, (to, from)), -as_signed(amount))
    }
}

/// Orders a transfer between two parties so that, whichever the direction,
/// the same party comes first; the sign of the amount keeps the direction.
/// Net balances between two parties can then be summed over many transfers.
pub fn canonical_transfer(from: AccountId, to: AccountId, token_id: TokenId, amount: u64) -> (r: (
    TransferKey,
    i64,
))
    requires
        !bytes_lt(from@, to@) ==> amount != 0x8000_0000_0000_0000,
    ensures
        r.0 == canonical_form(from, to, token_id, amount).0,
        r.1 == canonical_form(from, to, token_id, amount).1,
{
    let signed: i64 = if amount <= 0x7fff_ffff_ffff_ffff {
        amount as i64
    } else {
        ((amount - 0x8000_0000_0000_0000) as i64) + i64::MIN
    };
    if slice_lt(from.as_slice(), to.as_slice()) {
        ((token_id, (from, to)), signed)
    } else {
        ((token_id, (to, from)), -signed)
    }
}

/// The netting order: by token, then by first counterpart, then by second.
pub open spec fn key_lt(a: TransferKey, b: TransferKey) -> bool {
    ||| a.0 < b.0
    ||| a.0 == b.0 && bytes_lt((a.1).0@, (b.1).0@)
    ||| a.0 == b.0 && (a.1).0@ == (b.1).0@ && bytes_lt((a.1).1@, (b.1).1@)
}

pub(crate) proof fn lemma_key_lt_total(a: TransferKey, b: TransferKey)
    ensures
        !key_lt(a, a),
        !(key_lt(a, b) && key_lt(b, a)),
        a != b ==> key_lt(a, b) || key_lt(b, a),
{
    lemma_bytes_lt_irreflexive((a.1).0@);
    lemma_bytes_lt_irreflexive((a.1).1@);
    lemma_bytes_lt_total((a.1).0@, (b.1).0@);
    lemma_bytes_lt_total((a.1).1@, (b.1).1@);
    if a != b && a.0 == b.0 && (a.1).0@ == (b.1).0@ && (a.1).1@ == (b.1).1@ {
        assert((a.1).0 =~= (b.1).0);
        assert((a.1).1 =~= (b.1).1);
    }
}

/// Netted transfers: one entry per key with its net signed amount.
pub type Staged = Seq<(TransferKey, i64)>;

/// Adds `amount` to the entry of `key` in a key-ordered list of net
/// amounts (creating the entry in its place when there is none), or
/// `None` when the sum leaves the range of `i64`.
pub open spec fn stage_add(s: Staged, key: TransferKey, amount: int) -> Option<Staged>
    decreases s.len(),
{
    if s.len() == 0 {
        if i64::MIN <= amount <= i64::MAX {
            Some(seq![(key, amount as i64)])
        } else {
            None
        }
    } else if s[0].0 == key {
        let sum = s[0].1 + amount;
        if i64::MIN <= sum <= i64::MAX {
            Some(s.update(0, (key, sum as i64)))
        } else {
            None
        }
    } else if key_lt(key, s[0].0) {
        if i64::MIN <= amount <= i64::MAX {
            Some(seq![(key, amount as i64)] + s)
        } else {
            None
        }
    } else {
        match stage_add(s.drop_first(), key, amount) {
            Some(rest) => Some(seq![s[0]] + rest),
            None => None,
        }
    }
}

/// Where the scan for `key` stops: every earlier entry comes before `key`.
proof fn lemma_stage_add_at(s: Staged, key: TransferKey, amount: int, i: int)
    requires
        0 <= i <= s.len(),
        forall|j: int| 0 <= j < i ==> key_lt(#[trigger] s[j].0, key),
        i == s.len() || !key_lt(s[i].0, key),
        i64::MIN <= amount <= i64::MAX,
    ensures
        i < s.len() && s[i].0 == key ==> stage_add(s, key, amount) == (if i64::MIN <= s[i].1
            + amount <= i64::MAX {
            Some(s.update(i, (key, (s[i].1 + amount) as i64)))
        } else {
            None::<Staged>
        }),
        !(i < s.len() && s[i].0 == key) ==> stage_add(s, key, amount) == Some(
            s.take(i).push((key, amount as i64)) + s.skip(i),
        ),
    decreases i,
{
    if i == 0 {
        if s.len() > 0 {
            lemma_key_lt_total(s[0].0, key);
            assert(s.skip(0) =~= s);
        }
        assert(s.take(0).push((key, amount as i64)) =~= seq![(key, amount as i64)]);
        if s.len() == 0 {
            assert(seq![(key, amount as i64)] + s =~= seq![(key, amount as i64)]);
        }
    } else {
        lemma_key_lt_total(s[0].0, key);
        let t = s.drop_first();
        assert forall|j: int| 0 <= j < i - 1 implies key_lt(#[trigger] t[j].0, key) by {
            assert(t[j] == s[j + 1]);
        }
        lemma_stage_add_at(t, key, amount, i - 1);
        if i < s.len() && s[i].0 == key {
            if i64::MIN <= s[i].1 + amount <= i64::MAX {
                assert(seq![s[0]] + t.update(i - 1, (key, (s[i].1 + amount) as i64)) =~= s.update(
                    i,
                    (key, (s[i].1 + amount) as i64),
                ));
            }
        } else {
            assert(seq![s[0]] + (t.take(i - 1).push((key, amount as i64)) + t.skip(i - 1))
                =~= s.take(i).push((key, amount as i64)) + s.skip(i));
        }
    }
}

fn key_eq(a: &TransferKey, b: &TransferKey) -> (r: bool)
    ensures
        r == (*a == *b),
{
    if a.0 != b.0 {
        return false;
    }
    let e1 = hash_eq(&(a.1).0, &(b.1).0);
    let e2 = hash_eq(&(a.1).1, &(b.1).1);
    if e1 && e2 {
        assert((a.1).0 =~= (b.1).0);
        assert((a.1).1 =~= (b.1).1);
    }
    e1 && e2
}

fn key_less(a: &TransferKey, b: &TransferKey) -> (r: bool)
    ensures
        r == key_lt(*a, *b),
{
    if a.0 != b.0 {
        return a.0 < b.0;
    }
    if slice_lt((a.1).0.as_slice(), (b.1).0.as_slice()) {
        return true;
    }
    if !hash_eq(&(a.1).0, &(b.1).0) {
        return false;
    }
    slice_lt((a.1).1.as_slice(), (b.1).1.as_slice())
}

/// Adds a signed amount to the net transfer of `key`; `false` (and nothing
/// changed) when the net amount would leave the range of `i64`.
pub fn stage_transfer(staged: &mut Vec<(TransferKey, i64)>, key: TransferKey, amount: i64) -> (ok:
    bool)
    ensures
        ok == stage_add(old(staged)@, key, amount as int) is Some,
        ok ==> final(staged)@ == stage_add(old(staged)@, key, amount as int)->Some_0,
        !ok ==> final(staged)@ == old(staged)@,
{
    let mut i: usize = 0;
    loop
        invariant
            i <= staged@.len(),
            staged@ == old(staged)@,
            forall|j: int| 0 <= j < i ==> key_lt(#[trigger] staged@[j].0, key),
        ensures
            i <= staged@.len(),
            staged@ == old(staged)@,
            forall|j: int| 0 <= j < i ==> key_lt(#[trigger] staged@[j].0, key),
            i == staged@.len() || !key_lt(staged@[i as int].0, key),
        decreases staged@.len() - i,
    {
        if i == staged.len() {
            break ;
        }
        if !key_less(&staged[i].0, &key) {
            break ;
        }
        i = i + 1;
    }
    proof {
        lemma_stage_add_at(staged@, key, amount as int, i as int);
    }
    if i < staged.len() && key_eq(&staged[i].0, &key) {
        let current: i64 = staged[i].1;
        match current.checked_add(amount) {
            Some(sum) => {
                staged.set(i, (key, sum));
                true
            },
            None => false,
        }
    } else {
        staged.insert(i, (key, amount));
        assert(staged@ =~= old(staged)@.take(i as int).push((key, amount)) + old(staged)@.skip(
            i as int,
        ));
        true
    }
}

} // verus!
