use token_ledger::external_client::state::State;
use token_ledger::hashing::{TreeIndex, TREE_DEPTH};
use token_ledger::rollup::state::State as RollupState;

#[test]
fn state_empty_state() {
    let mut empty: State = Default::default();
    assert_eq!([0; 32], empty.get_root());

    let empty_rollup: RollupState = Default::default();
    assert_eq!([0; 32], empty_rollup.root());
}

#[test]
fn state_check_constants() {
    assert_eq!(TREE_DEPTH + 1, std::mem::size_of::<TreeIndex>() * 8);
}

#[test]
fn client_check_constants() {
    assert_eq!(TREE_DEPTH + 1, std::mem::size_of::<TreeIndex>() * 8);
}

#[test]
fn state_create_token_and_distribute() {
    let mut state: State = Default::default();

    state.set_balance([1; 32], 1, 10);

    assert!([0; 32] != state.get_root());

    let witness_1 = state.take_witness();
    let mut state2 = State::from_witness(witness_1).unwrap();
    state2.set_balance([1; 32], 1, 10);
    assert_eq!(state.get_root(), state2.get_root());

    assert_eq!(Some(10), state.get_balance([1; 32], 1));
    // get balance witness
    let witness_2 = state.take_witness();
    let mut state3 = State::from_witness(witness_2).unwrap();
    assert_eq!(state.get_root(), state3.get_root());
    assert_eq!(Some(10), state3.get_balance([1; 32], 1));

    // insert token and insert another value
    state.set_balance([8; 32], 2, 32);
    state.known_tokens_push(1);
    state.known_tokens_push(2);
    let witness_3 = state.take_witness();

    let mut state4 = State::from_witness(witness_3).unwrap();
    assert_eq!(state3.get_root(), state4.get_root());
    state4.set_balance([8; 32], 2, 32);
    state4.known_tokens_push(1);
    state4.known_tokens_push(2);
    assert_eq!(state.get_root(), state4.get_root());

    // test serialize
    let root_bef_ser = state.get_root();
    let (balances_file, tokens_file) = state.serialize().unwrap();
    drop(state);
    let mut state_from_ser = State::from_files(&balances_file, &tokens_file).unwrap();
    assert_eq!(root_bef_ser, state_from_ser.get_root());

    // the rollup state
    let mut rollup: RollupState = Default::default();
    rollup.insert_balance([1; 32], 1, 10);
    assert!([0; 32] != rollup.root());
    assert_eq!(Some(10), rollup.get_balance([1; 32], 1));
}
