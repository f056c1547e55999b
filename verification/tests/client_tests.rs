use ed25519_consensus::SigningKey;
use token_ledger::external_client::refinement::{
    encode_roots, refine_payload, Payload, RefineError, TokenLedgerExternalClient,
};
use token_ledger::external_client::state::{hash_sequence, State, Witness};
use token_ledger::external_client::transition::state_transition;
use token_ledger::hashing::{hash_pair, tree_index_from_key};
use token_ledger::ledger::{balance_key, LedgerError, Operation, SignedOperation};

fn account(seed: u8) -> [u8; 32] {
    SigningKey::from([seed; 32]).verification_key().to_bytes()
}

fn unsigned(operation: Operation) -> SignedOperation {
    SignedOperation { operation, signature: [0; 64] }
}

fn mint(to: [u8; 32], token_id: u32, amount: u64) -> SignedOperation {
    unsigned(Operation::Mint { to, token_id, amount })
}

fn transfer(from: [u8; 32], to: [u8; 32], token_id: u32, amount: u64) -> SignedOperation {
    unsigned(Operation::Transfer { from, to, token_id, amount })
}

/// Two accounts whose balance keys in `token_id` land on the same leaf.
fn colliding_accounts(token_id: u32) -> ([u8; 32], [u8; 32]) {
    let mut seen = std::collections::HashMap::new();
    for i in 0u32.. {
        let mut acc = [0u8; 32];
        acc[..4].copy_from_slice(&i.to_le_bytes());
        let ix = tree_index_from_key(&balance_key(token_id, &acc));
        if let Some(other) = seen.insert(ix, acc) {
            return (other, acc);
        }
    }
    unreachable!()
}

#[test]
fn known_tokens_root_part() {
    let mut state = State::new();
    state.known_tokens_push(4);
    state.known_tokens_push(4);
    state.known_tokens_push(2);
    assert!(state.known_tokens_contains(4));
    assert!(state.known_tokens_contains(2));
    assert!(!state.known_tokens_contains(3));
    // No balance yet: the root is the hash of the token list.
    assert_eq!(state.get_root(), hash_sequence(&[4u32, 2u32]));
    let mut h4 = [0u8; 32];
    h4[0] = 4;
    let mut h2 = [0u8; 32];
    h2[0] = 2;
    let mut data = h4.to_vec();
    data.extend_from_slice(&h2);
    assert_eq!(hash_sequence(&[4u32, 2u32]), blake2b_simd::blake2b(&data).as_bytes()[..32]);
}

#[test]
fn balances_read_back() {
    let mut state = State::new();
    assert_eq!(state.get_balance([1; 32], 1), None);
    assert!(state.try_set_balance([1; 32], 1, 10));
    assert!(state.try_set_balance([1; 32], 2, 20));
    assert!(state.try_set_balance([1; 32], 1, 11));
    assert_eq!(state.get_balance([1; 32], 1), Some(11));
    assert_eq!(state.get_balance([1; 32], 2), Some(20));
    assert_eq!(state.get_balance([2; 32], 1), None);
    let root = state.get_root();
    assert!(state.try_set_balance([1; 32], 1, 12));
    assert_ne!(root, state.get_root());
    assert!(state.try_set_balance([1; 32], 1, 11));
    assert_eq!(root, state.get_root());
}

#[test]
fn key_collision_is_refused() {
    let (a, b) = colliding_accounts(1);
    let mut state = State::new();
    assert!(state.try_set_balance(a, 1, 5));
    let root = state.get_root();
    assert!(!state.try_set_balance(b, 1, 6));
    assert_eq!(state.get_balance(b, 1), None);
    assert_eq!(state.get_balance(a, 1), Some(5));
    assert_eq!(root, state.get_root());
}

#[test]
fn transition_mints_and_transfers() {
    let (a, b) = (account(1), account(2));
    let mut state = State::new();
    let ops = vec![mint(a, 1, 100), transfer(a, b, 1, 30), transfer(b, a, 1, 5)];
    assert_eq!(state_transition(&mut state, ops), Ok(()));
    assert_eq!(state.get_balance(a, 1), Some(75));
    assert_eq!(state.get_balance(b, 1), Some(25));
    assert!(state.known_tokens_contains(1));
}

#[test]
fn transition_skips_what_it_cannot_do() {
    let (a, b) = (account(1), account(2));
    let mut state = State::new();
    assert_eq!(state_transition(&mut state, vec![mint(a, 1, 100)]), Ok(()));
    let root = state.get_root();
    // A second mint of a known token does nothing.
    assert_eq!(state_transition(&mut state, vec![mint(b, 1, 100)]), Ok(()));
    // Unknown token, insufficient balance, zero amounts, self transfers.
    let ops = vec![
        transfer(a, b, 2, 10),
        transfer(a, b, 1, 101),
        transfer(a, b, 1, 0),
        mint(a, 3, 0),
        transfer(a, a, 1, 10),
    ];
    assert_eq!(state_transition(&mut state, ops), Ok(()));
    assert_eq!(state.get_balance(a, 1), Some(100));
    assert_eq!(state.get_balance(b, 1), None);
    assert!(!state.known_tokens_contains(3));
    assert_eq!(root, state.get_root());
}

#[test]
fn transition_reports_errors() {
    let (a, b) = (account(1), account(2));
    let (lo, hi) = if a < b { (a, b) } else { (b, a) };
    let mut state = State::new();
    let ops = vec![transfer(lo, hi, 1, i64::MAX as u64), transfer(lo, hi, 1, 1)];
    assert_eq!(state_transition(&mut state, ops), Err(LedgerError::AmountOverflow));

    let (c, d) = colliding_accounts(7);
    let mut state = State::new();
    let ops = vec![mint(c, 7, 1), mint(d, 8, 1)];
    assert_eq!(state_transition(&mut state, ops), Ok(()));
    let mut state = State::new();
    assert!(state.try_set_balance(c, 7, 1));
    assert_eq!(state_transition(&mut state, vec![mint(d, 7, 1)]), Err(LedgerError::KeyCollision));
}

#[test]
fn refinement_from_witness_reproduces_roots() {
    let (a, b) = (account(1), account(2));
    let mut state = State::new();
    assert_eq!(state_transition(&mut state, vec![mint(a, 1, 100), mint(b, 2, 7)]), Ok(()));
    let _ = state.take_witness();

    let previous_root = state.get_root();
    let ops = vec![transfer(a, b, 1, 40), mint(a, 3, 9), transfer(b, a, 2, 2)];
    assert_eq!(state_transition(&mut state, ops.clone()), Ok(()));
    let new_root = state.get_root();
    let witness = state.take_witness();

    let payload = Payload { operations: ops, witness };
    let (bytes, count) = refine_payload(payload).unwrap();
    assert_eq!(count, 3);
    assert_eq!(bytes, encode_roots(&previous_root, &new_root));
    let mut expected = previous_root.to_vec();
    expected.extend_from_slice(&new_root);
    assert_eq!(bytes, expected);
    assert_ne!(previous_root, new_root);
}

#[test]
fn refinement_rejects_a_witness_that_moves_the_root() {
    let witness = Witness {
        hashes: Vec::new(),
        key_value_balances: vec![(balance_key(1, &[1; 32]), 5)],
        token_ids: Vec::new(),
    };
    assert_eq!(
        TokenLedgerExternalClient::refine_roots(Vec::new(), witness),
        Err(RefineError::BadWitness)
    );
}

#[test]
fn refinement_reports_ledger_errors() {
    let (a, b) = (account(1), account(2));
    let ops = vec![transfer(b, a, 1, 1u64 << 63)];
    let ops = if a < b { ops } else { vec![transfer(a, b, 1, 1u64 << 63)] };
    assert_eq!(
        TokenLedgerExternalClient::refine_roots(ops, Witness::default()),
        Err(RefineError::Ledger(LedgerError::AmountOverflow))
    );
}

#[test]
fn empty_witness_gives_empty_roots() {
    assert_eq!(
        TokenLedgerExternalClient::refine_roots(Vec::new(), Witness::default()),
        Ok(([0; 32], [0; 32]))
    );
    let mut state = State::new();
    let expected = hash_pair(&[0; 32], &[0; 32]);
    assert_eq!(state.get_root(), expected);
}

#[test]
fn refinement_replays_a_batch_that_creates_balances() {
    // The batch mints a new token to an account that holds nothing, then
    // moves it on; balances it creates are read after being written.
    let (a, b, c) = (account(1), account(2), account(3));
    let mut state = State::new();
    assert_eq!(state_transition(&mut state, vec![mint(b, 6, 50)]), Ok(()));
    let _ = state.take_witness();
    let previous_root = state.get_root();
    let ops = vec![
        mint(a, 5, 10),
        transfer(a, b, 5, 3),
        transfer(b, a, 6, 20),
        transfer(a, c, 6, 5),
        transfer(c, b, 5, 1),
    ];
    assert_eq!(state_transition(&mut state, ops.clone()), Ok(()));
    assert_eq!(state.get_balance(a, 5), Some(7));
    assert_eq!(state.get_balance(a, 6), Some(15));
    let new_root = state.get_root();
    let witness = state.take_witness();
    // Only balances that the state held before the batch are in the witness.
    assert_eq!(witness.key_value_balances, vec![(balance_key(6, &b), 50)]);
    assert_eq!(
        TokenLedgerExternalClient::refine_roots(ops.clone(), witness),
        Ok((previous_root, new_root))
    );
    assert_ne!(previous_root, new_root);
}

#[test]
fn witness_balances_come_by_increasing_key() {
    let mut state = State::new();
    for seed in 1..8u8 {
        state.set_balance([seed; 32], 1, seed as u64);
    }
    let _ = state.take_witness();
    // Read in an order unrelated to the keys, some twice.
    for seed in [5u8, 2, 7, 1, 5, 3, 2] {
        assert_eq!(state.get_balance([seed; 32], 1), Some(seed as u64));
    }
    let witness = state.take_witness();
    let keys: Vec<Vec<u8>> = witness.key_value_balances.iter().map(|p| p.0.clone()).collect();
    assert_eq!(keys.len(), 5);
    for pair in keys.windows(2) {
        assert!(pair[0] < pair[1]);
    }
    for pair in witness.hashes.windows(2) {
        assert!(pair[0].0 < pair[1].0);
    }
    // Reading leaves the root and the balances as they were.
    let root = state.get_root();
    let _ = state.take_witness();
    assert_eq!(state.get_root(), root);
    assert_eq!(state.get_balance([4; 32], 1), Some(4));
}

#[test]
fn set_balance_stores_where_the_leaf_is_free() {
    let (a, b) = colliding_accounts(3);
    let mut state = State::new();
    state.set_balance(a, 3, 9);
    assert_eq!(state.get_balance(a, 3), Some(9));
    state.set_balance(a, 3, 4);
    assert_eq!(state.get_balance(a, 3), Some(4));
    let root = state.get_root();
    assert!(!state.try_set_balance(b, 3, 1));
    assert_eq!(state.get_root(), root);
    assert!(state.try_set_balance(a, 3, 2));
    assert_eq!(state.get_balance(a, 3), Some(2));
}

/// Runs a batch from an empty state that first mints token 1 to `a` and
/// token 2 to `b`; gives the outcome, the root and the balances of
/// `accounts` in tokens 1 to 3.
fn run_batch(
    ops: Vec<SignedOperation>,
    accounts: &[[u8; 32]],
) -> (Result<(), LedgerError>, [u8; 32], Vec<Option<u64>>) {
    let (a, b) = (account(1), account(2));
    let mut state = State::new();
    assert_eq!(state_transition(&mut state, vec![mint(a, 1, 100), mint(b, 2, 50)]), Ok(()));
    let outcome = state_transition(&mut state, ops);
    let root = state.get_root();
    let mut balances = Vec::new();
    for acc in accounts {
        for token in 1..=3u32 {
            balances.push(state.get_balance(*acc, token));
        }
    }
    (outcome, root, balances)
}

fn invalid_account() -> [u8; 32] {
    (0u8..=255)
        .map(|i| {
            let mut k = [i; 32];
            k[31] = 0x7f;
            k
        })
        .find(|k| !token_ledger::crypto::is_valid_verification_key(k))
        .unwrap()
}

#[test]
fn skipped_operations_change_no_outcome() {
    let (a, b, c) = (account(1), account(2), account(3));
    let accounts = [a, b, c];
    let ops = vec![transfer(a, b, 1, 30), mint(c, 3, 7), transfer(b, c, 2, 20)];
    let base = run_batch(ops.clone(), &accounts);
    assert_eq!(base.0, Ok(()));
    let skipped = [
        mint(c, 4, 0),
        transfer(a, b, 1, 0),
        transfer(a, a, 1, 10),
        transfer(invalid_account(), b, 1, 5),
    ];
    for x in skipped {
        for p in 0..=ops.len() {
            let mut with = ops.clone();
            with.insert(p, x);
            assert_eq!(run_batch(with, &accounts), base);
        }
    }
}

#[test]
fn mints_of_known_tokens_change_no_outcome() {
    let (a, b, c) = (account(1), account(2), account(3));
    let accounts = [a, b, c];
    let ops = vec![transfer(a, b, 1, 30), mint(c, 3, 7), transfer(b, c, 3, 2)];
    let base = run_batch(ops.clone(), &accounts);
    assert_eq!(base.0, Ok(()));
    // Token 1 is known before the batch: anywhere.
    for p in 0..=ops.len() {
        let mut with = ops.clone();
        with.insert(p, mint(b, 1, 1000));
        assert_eq!(run_batch(with, &accounts), base);
    }
    // Token 3 is minted by the second operation: after it.
    for p in 2..=ops.len() {
        let mut with = ops.clone();
        with.insert(p, mint(a, 3, 9));
        assert_eq!(run_batch(with, &accounts), base);
    }
    // Before it, the mint of token 3 is another one.
    let mut with = ops.clone();
    with.insert(0, mint(a, 3, 9));
    assert_ne!(run_batch(with, &accounts), base);
}

#[test]
fn transfer_order_changes_no_outcome() {
    let (a, b, c) = (account(1), account(2), account(3));
    let accounts = [a, b, c];
    let ops = vec![
        transfer(a, b, 1, 30),
        mint(c, 3, 7),
        transfer(b, c, 2, 20),
        transfer(b, a, 1, 10),
        transfer(c, a, 3, 5),
    ];
    let base = run_batch(ops.clone(), &accounts);
    assert_eq!(base.0, Ok(()));
    assert_eq!(base.2[0..3], [Some(80), None, Some(5)]);
    // Transfers moved around, the mint kept in place among mints.
    let reordered = vec![
        transfer(c, a, 3, 5),
        transfer(b, a, 1, 10),
        mint(c, 3, 7),
        transfer(b, c, 2, 20),
        transfer(a, b, 1, 30),
    ];
    assert_eq!(run_batch(reordered, &accounts), base);
    for p in 0..ops.len() - 1 {
        let mut swapped = ops.clone();
        swapped.swap(p, p + 1);
        assert_eq!(run_batch(swapped, &accounts), base);
    }
}

#[test]
fn transitions_conserve_supply() {
    let (a, b, c) = (account(1), account(2), account(3));
    let supply = |state: &mut State, token: u32| -> u64 {
        [a, b, c].iter().map(|acc| state.get_balance(*acc, token).unwrap_or(0)).sum()
    };
    let mut state = State::new();
    let ops = vec![
        transfer(a, b, 1, 5),
        mint(a, 1, 100),
        transfer(a, b, 1, 30),
        transfer(b, c, 1, 12),
        mint(c, 1, 1000),
        transfer(c, a, 1, 50),
    ];
    assert_eq!(state_transition(&mut state, ops), Ok(()));
    // Only the first mint of token 1 counts.
    assert_eq!(supply(&mut state, 1), 100);
    let ops = vec![transfer(b, a, 1, 18), transfer(a, c, 1, 60), mint(b, 1, 7)];
    assert_eq!(state_transition(&mut state, ops), Ok(()));
    assert_eq!(supply(&mut state, 1), 100);
    assert_eq!(supply(&mut state, 2), 0);
}
