use jam_codec::Encode;
use token_ledger::hashing::{hash_bytes, hash_multiple, hash_pair, tree_index_from_key};
use token_ledger::ledger::balance_key;
use token_ledger::rollup::accumulation::{
    decode_operation, on_work_item, on_work_items, AccumulateInput, AccumulateOutcome,
    ItemAccumulate,
};
use token_ledger::rollup::hash_key;
use token_ledger::rollup::state::{InsertError, MerkleTree, State, StateTree};

fn root_of(byte: u8) -> [u8; 32] {
    [byte; 32]
}

fn move_bytes(previous: [u8; 32], new: [u8; 32]) -> Vec<u8> {
    let mut out = previous.to_vec();
    out.extend_from_slice(&new);
    out
}

/// Two accounts whose balance keys in `token_id` land on the same leaf in
/// the tree.
fn colliding_accounts(token_id: u32) -> ([u8; 32], [u8; 32]) {
    let mut seen = std::collections::HashMap::new();
    for i in 0u32.. {
        let mut acc = [0u8; 32];
        acc[..4].copy_from_slice(&i.to_le_bytes());
        let ix = tree_index_from_key(&balance_key(token_id, &acc));
        if let Some(other) = seen.insert(ix, acc) {
            return (other, acc);
        }
    }
    unreachable!()
}

#[test]
fn hashes_match_blake2b() {
    let data = b"token ledger";
    let digest = blake2b_simd::blake2b(data);
    assert_eq!(hash_bytes(data), digest.as_bytes()[..32]);
    assert_eq!(hash_key(data), digest.as_bytes()[..32]);
    assert_eq!(hash_multiple(&[b"token ", b"", b"ledger"]), digest.as_bytes()[..32]);
    assert_eq!(hash_multiple(&[]), [0; 32]);
    assert_eq!(hash_multiple(&[b"", b""]), [0; 32]);
    assert_eq!(hash_bytes(b""), [0; 32]);
}

#[test]
fn pair_hash_treats_zero_as_neutral() {
    let a = root_of(1);
    let b = root_of(2);
    assert_eq!(hash_pair(&[0; 32], &a), a);
    assert_eq!(hash_pair(&a, &[0; 32]), a);
    let mut data = a.to_vec();
    data.extend_from_slice(&b);
    assert_eq!(hash_pair(&a, &b), blake2b_simd::blake2b(&data).as_bytes()[..32]);
    assert_ne!(hash_pair(&a, &b), hash_pair(&b, &a));
}

#[test]
fn tree_index_takes_two_masked_bytes() {
    for key in [&b"a"[..], b"key", &[0u8; 36], &[255u8; 36]] {
        let h = blake2b_simd::blake2b(key);
        let h = h.as_bytes();
        let expected = h[0] as u16 + 256 * ((h[1] & 0x7f) as u16);
        assert_eq!(tree_index_from_key(key), expected);
        assert!(tree_index_from_key(key) < 32768);
    }
}

#[test]
fn merkle_tree_root_combines_the_leaves() {
    let mut tree = MerkleTree::new();
    assert_eq!(tree.root(), [0; 32]);
    // With every other leaf empty, the root is the single leaf's hash.
    tree.insert(5, root_of(7));
    assert_eq!(tree.root(), root_of(7));
    // Leaves in the two halves of the tree meet at the root.
    tree.insert(20000, root_of(9));
    assert_eq!(tree.root(), hash_pair(&root_of(7), &root_of(9)));
}

#[test]
fn merkle_tree_root_of_two_sibling_leaves() {
    let mut tree = MerkleTree::new();
    tree.insert(0, [1u8; 32]);
    tree.insert(1, [2u8; 32]);
    assert_eq!(tree.root(), hash_pair(&[1u8; 32], &[2u8; 32]));
    // Overwriting a leaf recomputes its path.
    tree.insert(0, [3u8; 32]);
    assert_eq!(tree.root(), hash_pair(&[3u8; 32], &[2u8; 32]));
    // Leaves 0 and 2 first meet two levels up.
    tree.insert(2, [4u8; 32]);
    assert_eq!(
        tree.root(),
        hash_pair(&hash_pair(&[3u8; 32], &[2u8; 32]), &[4u8; 32])
    );
}

#[test]
fn store_reads_back_and_refuses_collisions() {
    let mut store: StateTree<u64> = StateTree::new();
    let (a, b) = colliding_accounts(1);
    let ka = balance_key(1, &a);
    let kb = balance_key(1, &b);
    assert_eq!(store.get(&ka), None);
    assert!(store.insert(ka.clone(), 3));
    assert_eq!(store.get(&ka), Some(3));
    assert!(store.insert(ka.clone(), 4));
    assert_eq!(store.get(&ka), Some(4));
    let root = store.root();
    assert!(!store.insert(kb.clone(), 5));
    assert_eq!(store.get(&kb), None);
    assert_eq!(root, store.root());
    assert!(!store.insert(kb, 6));
    assert_eq!(root, store.root());
}

#[test]
fn state_insert_errors() {
    let mut state = State::new();
    let (a, b) = colliding_accounts(2);
    assert_eq!(state.try_insert_balance(a, 2, 1), Ok(()));
    let root = state.root();
    assert_eq!(state.try_insert_balance(b, 2, 1), Err(InsertError::KeyCollision));
    assert_eq!(root, state.root());
    assert_eq!(state.get_balance(a, 2), Some(1));
    assert_eq!(state.get_balance(b, 2), None);
}

#[test]
fn operation_decoding() {
    let bytes = move_bytes(root_of(1), root_of(2));
    let op = decode_operation(&bytes).unwrap();
    assert_eq!(op.previous_root, root_of(1));
    assert_eq!(op.new_root, root_of(2));
    assert!(decode_operation(&bytes[..63]).is_none());
    let mut longer = bytes.clone();
    longer.push(9);
    assert_eq!(decode_operation(&longer).unwrap().new_root, root_of(2));
}

#[test]
fn moves_chain_from_the_stored_root() {
    let stored = root_of(1);
    let items = vec![
        AccumulateInput::WorkItem(Some(move_bytes(root_of(1), root_of(2)))),
        AccumulateInput::WorkItem(None),
        AccumulateInput::WorkItem(Some(vec![1, 2, 3])),
        AccumulateInput::WorkItem(Some(move_bytes(root_of(2), root_of(3)))),
    ];
    assert_eq!(on_work_items(&items, &stored), AccumulateOutcome::SetRoot(root_of(3)));
    assert_eq!(on_work_items(&Vec::new(), &stored), AccumulateOutcome::Unchanged);
    let failed = vec![AccumulateInput::WorkItem(None)];
    assert_eq!(on_work_items(&failed, &stored), AccumulateOutcome::Unchanged);
}

#[test]
fn a_broken_chain_drops_the_batch() {
    let stored = root_of(1);
    let items = vec![
        AccumulateInput::WorkItem(Some(move_bytes(root_of(1), root_of(2)))),
        AccumulateInput::WorkItem(Some(move_bytes(root_of(1), root_of(3)))),
        AccumulateInput::WorkItem(Some(move_bytes(root_of(3), root_of(4)))),
    ];
    assert_eq!(on_work_items(&items, &stored), AccumulateOutcome::Mismatch);

    let mut acc: ItemAccumulate = Ok(None);
    on_work_item(Some(&move_bytes(root_of(5), root_of(6))), &mut acc, &stored);
    assert_eq!(acc, Err(()));
    // After a failure nothing moves again.
    on_work_item(Some(&move_bytes(root_of(1), root_of(2))), &mut acc, &stored);
    assert_eq!(acc, Err(()));
}

#[test]
fn a_single_move_from_the_stored_root() {
    let stored = root_of(8);
    let mut acc: ItemAccumulate = Ok(None);
    on_work_item(None, &mut acc, &stored);
    assert_eq!(acc, Ok(None));
    on_work_item(Some(&move_bytes(root_of(8), root_of(9))), &mut acc, &stored);
    assert_eq!(acc, Ok(Some(root_of(9))));
}

/// The `n`-th test account.
fn account(n: u32) -> [u8; 32] {
    let mut acc = [0u8; 32];
    acc[..4].copy_from_slice(&n.to_le_bytes());
    acc
}

/// A log item: the key, then the encoded balance.
fn log_item(key: &[u8], value: u64) -> Vec<u8> {
    (key.to_vec(), value.encode()).encode()
}

#[test]
fn store_opens_from_its_log() {
    let a = account(0);
    let b = account(1);
    let ka = balance_key(1, &a);
    let kb = balance_key(1, &b);
    let mut log = log_item(&ka, 5);
    log.extend(log_item(&kb, 7));
    log.extend(log_item(&ka, 9));
    let store = StateTree::<u64>::from_log(&log).unwrap();
    assert_eq!(store.get(&ka), Some(9));
    assert_eq!(store.get(&kb), Some(7));
    let mut expected: StateTree<u64> = StateTree::new();
    assert!(expected.insert(kb.clone(), 7));
    assert!(expected.insert(ka.clone(), 9));
    assert_eq!(store.root(), expected.root());
    // Reading stops at an item cut short.
    let mut cut = log_item(&ka, 5);
    cut.extend_from_slice(&log_item(&kb, 7)[..10]);
    let store = StateTree::<u64>::from_log(&cut).unwrap();
    assert_eq!(store.get(&ka), Some(5));
    assert_eq!(store.get(&kb), None);
    // Nothing to read gives an empty store.
    assert_eq!(StateTree::<u64>::from_log(&[]).unwrap().root(), [0; 32]);
}

#[test]
fn store_log_refuses_bad_items() {
    let a = account(0);
    let ka = balance_key(1, &a);
    let short = (ka.clone(), vec![1u8, 2, 3]).encode();
    assert!(StateTree::<u64>::from_log(&short).is_none());
    // A short value anywhere refuses the whole log.
    let mut log = log_item(&ka, 5);
    log.extend(short);
    assert!(StateTree::<u64>::from_log(&log).is_none());
}
