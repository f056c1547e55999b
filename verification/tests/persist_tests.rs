use jam_codec::Encode;
use token_ledger::external_client::persist::{decode_balances, decode_tokens};
use token_ledger::external_client::state::State;
use token_ledger::ledger::balance_key;

#[test]
fn tokens_file_matches_codec() {
    let mut state = State::new();
    for id in [7u32, 3, 7, 0x0102_0304] {
        state.known_tokens_push(id);
    }
    let (_, tokens) = state.serialize().unwrap();
    assert_eq!(tokens, vec![7u32, 3, 0x0102_0304].encode());
    assert_eq!(decode_tokens(&tokens), Some(vec![7, 3, 0x0102_0304]));
    let (_, empty) = State::new().serialize().unwrap();
    assert_eq!(empty, vec![0u8]);
}

#[test]
fn balances_file_matches_codec() {
    let mut state = State::new();
    assert!(state.try_set_balance([1; 32], 1, 10));
    let (balances, _) = state.serialize().unwrap();
    let key = balance_key(1, &[1; 32]);
    let mut expected = 1u64.encode();
    expected.extend((10u64, key.clone()).encode());
    assert_eq!(balances, expected);
    assert_eq!(decode_balances(&balances), Some(vec![(key, 10)]));
    let (empty, _) = State::new().serialize().unwrap();
    assert_eq!(empty, vec![0u8; 8]);
}

#[test]
fn files_read_back() {
    let mut state = State::new();
    for i in 0..20u8 {
        assert!(state.try_set_balance([i; 32], (i % 3) as u32, 100 + i as u64));
        state.known_tokens_push((i % 3) as u32);
    }
    let (balances, tokens) = state.serialize().unwrap();
    let mut opened = State::from_files(&balances, &tokens).unwrap();
    for i in 0..20u8 {
        assert_eq!(opened.get_balance([i; 32], (i % 3) as u32), Some(100 + i as u64));
    }
    assert!(opened.known_tokens_contains(0));
    assert!(opened.known_tokens_contains(2));
    assert!(!opened.known_tokens_contains(3));
    // Bytes after what the files describe are ignored.
    let mut longer = balances.clone();
    longer.extend_from_slice(&[1, 2, 3]);
    let mut tokens_longer = tokens.clone();
    tokens_longer.push(9);
    let mut again = State::from_files(&longer, &tokens_longer).unwrap();
    assert_eq!(again.get_root(), opened.get_root());
}

#[test]
fn cut_files_are_refused() {
    let mut state = State::new();
    assert!(state.try_set_balance([5; 32], 1, 10));
    state.known_tokens_push(1);
    let (balances, tokens) = state.serialize().unwrap();
    for cut in 0..balances.len() {
        assert!(State::from_files(&balances[..cut], &tokens).is_none(), "cut {}", cut);
        assert_eq!(decode_balances(&balances[..cut]), None);
    }
    for cut in 0..tokens.len() {
        assert!(State::from_files(&balances, &tokens[..cut]).is_none());
        assert_eq!(decode_tokens(&tokens[..cut]), None);
    }
    // A count that the file does not hold.
    let mut more = balances.clone();
    more[0] = 2;
    assert!(State::from_files(&more, &tokens).is_none());
}

#[test]
fn long_length_prefixes_are_read() {
    // Lengths are natural numbers: a two-byte head for 128 tokens.
    let ids: Vec<u32> = (0..128).collect();
    let bytes = ids.encode();
    assert_eq!(&bytes[..2], &[0x80, 0x80]);
    assert_eq!(decode_tokens(&bytes), Some(ids));
    // A count over u32::MAX is refused.
    let mut huge = vec![0xff];
    huge.extend_from_slice(&(1u64 << 40).to_le_bytes());
    assert_eq!(decode_tokens(&huge), None);
}

#[test]
fn reopened_state_keeps_its_root() {
    let mut state = State::new();
    let mut stored = 0;
    for i in 0u32..200 {
        let mut account = [0u8; 32];
        account[..4].copy_from_slice(&i.to_le_bytes());
        let token = i % 4;
        if state.try_set_balance(account, token, 1000 + i as u64) {
            stored += 1;
        }
    }
    assert!(stored > 10);
    state.known_tokens_push(3);
    let root = state.get_root();
    let (balances, tokens) = state.serialize().unwrap();
    let mut opened = State::from_files(&balances, &tokens).unwrap();
    assert_eq!(opened.get_root(), root);
}
