use ed25519_consensus::{SigningKey, VerificationKey};
use jam_codec::{Compact, Encode};
use token_ledger::crypto::{admin, check_signature, is_valid_verification_key, verify_signature};
use token_ledger::ledger::{
    balance_key, canonical_transfer, encode_operation, encode_operations, stage_transfer,
    LedgerError, Operation, SignedOperation,
};
use token_ledger::refine::TokenLedger;

fn signing_key(seed: u8) -> SigningKey {
    SigningKey::from([seed; 32])
}

fn account(seed: u8) -> [u8; 32] {
    signing_key(seed).verification_key().to_bytes()
}

/// Two valid accounts, the lesser first.
fn ordered_accounts() -> ([u8; 32], [u8; 32]) {
    let a = account(1);
    let b = account(2);
    if a < b {
        (a, b)
    } else {
        (b, a)
    }
}

/// Some 32 bytes that are not a verification key.
fn invalid_key() -> [u8; 32] {
    for i in 0..=255u8 {
        let mut candidate = [i; 32];
        candidate[31] = i & 0x7f;
        if VerificationKey::try_from(candidate).is_err() {
            return candidate;
        }
    }
    panic!("no invalid key among the candidates");
}

fn unsigned(operation: Operation) -> SignedOperation {
    SignedOperation { operation, signature: [0; 64] }
}

fn mint(to: [u8; 32], token_id: u32, amount: u64) -> Operation {
    Operation::Mint { to, token_id, amount }
}

fn transfer(from: [u8; 32], to: [u8; 32], token_id: u32, amount: u64) -> Operation {
    Operation::Transfer { from, to, token_id, amount }
}

fn codec_bytes(op: &Operation) -> Vec<u8> {
    match op {
        Operation::Mint { to, token_id, amount } => (0u8, *to, *token_id, *amount).encode(),
        Operation::Transfer { from, to, token_id, amount } => {
            (1u8, *from, *to, *token_id, *amount).encode()
        }
    }
}

fn codec_list(ops: &[Operation]) -> Vec<u8> {
    let mut out = Compact(ops.len() as u32).encode();
    for op in ops {
        out.extend(codec_bytes(op));
    }
    out
}

#[test]
fn canonical_transfer_orders_counterparts() {
    let (a, b) = ([1u8; 32], [2u8; 32]);
    assert_eq!(canonical_transfer(a, b, 7, 10), ((7, (a, b)), 10));
    assert_eq!(canonical_transfer(b, a, 7, 10), ((7, (a, b)), -10));
    // An amount above i64::MAX reads as a negative signed amount.
    assert_eq!(canonical_transfer(a, b, 7, u64::MAX), ((7, (a, b)), -1));
    assert_eq!(canonical_transfer(b, a, 7, u64::MAX), ((7, (a, b)), 1));
}

#[test]
fn operation_encoding_matches_codec() {
    let m = mint([3; 32], 0x0102_0304, 0x1122_3344_5566_7788);
    let t = transfer([4; 32], [5; 32], 9, 300);
    assert_eq!(encode_operation(&m), codec_bytes(&m));
    assert_eq!(encode_operation(&t), codec_bytes(&t));
    let bytes = encode_operation(&m);
    assert_eq!(bytes.len(), 1 + 32 + 4 + 8);
    assert_eq!(bytes[0], 0);
    assert_eq!(&bytes[33..37], &[4, 3, 2, 1]);
    assert_eq!(encode_operation(&t)[0], 1);
}

#[test]
fn operations_encoding_length_prefix_matches_codec() {
    for n in [0usize, 1, 2, 127, 128, 300, 16383, 16384] {
        let ops: Vec<Operation> = (0..n).map(|i| mint([i as u8; 32], i as u32, 1)).collect();
        assert_eq!(encode_operations(&ops), codec_list(&ops), "length {}", n);
    }
    // One byte for lengths below 128, two from 128 on.
    assert_eq!(encode_operations(&Vec::new()), vec![0u8]);
    let ops: Vec<Operation> = (0..128).map(|_| mint([0; 32], 0, 1)).collect();
    assert_eq!(&encode_operations(&ops)[..2], &[0x80, 0x80]);
}

#[test]
fn balance_key_is_token_then_account() {
    let key = balance_key(0x0a0b_0c0d, &[7; 32]);
    let mut expected = vec![0x0d, 0x0c, 0x0b, 0x0a];
    expected.extend_from_slice(&[7; 32]);
    assert_eq!(key, expected);
}

#[test]
fn staging_nets_and_orders_entries() {
    let (a, b) = ([1u8; 32], [2u8; 32]);
    let mut staged = Vec::new();
    assert!(stage_transfer(&mut staged, (2, (a, b)), 5));
    assert!(stage_transfer(&mut staged, (1, (a, b)), 4));
    assert!(stage_transfer(&mut staged, (2, (a, b)), -7));
    assert_eq!(staged, vec![((1, (a, b)), 4), ((2, (a, b)), -2)]);
    // Leaving the range of i64 changes nothing.
    assert!(stage_transfer(&mut staged, (1, (a, b)), i64::MAX - 4));
    assert!(!stage_transfer(&mut staged, (1, (a, b)), 1));
    assert_eq!(staged, vec![((1, (a, b)), i64::MAX), ((2, (a, b)), -2)]);
}

#[test]
fn admin_key_is_valid() {
    assert_eq!(admin(), [0; 32]);
    assert!(is_valid_verification_key(&admin()));
    assert!(is_valid_verification_key(&account(3)));
    assert!(!is_valid_verification_key(&invalid_key()));
}

#[test]
fn signatures_are_checked() {
    let key = signing_key(4);
    let op = mint([9; 32], 1, 50);
    let signature: [u8; 64] = key.sign(&encode_operation(&op)).to_bytes();
    assert_eq!(verify_signature(&op, &signature, key.verification_key().to_bytes()), Ok(()));
    let other = mint([9; 32], 1, 51);
    assert_eq!(
        verify_signature(&other, &signature, key.verification_key().to_bytes()),
        Err("Signature verification failed")
    );
    assert_eq!(
        verify_signature(&op, &[0; 64], key.verification_key().to_bytes()),
        Err("Signature verification failed")
    );
}

#[test]
fn refine_nets_transfers_between_two_accounts() {
    let (a, b) = ordered_accounts();
    let ops = vec![unsigned(transfer(a, b, 1, 10)), unsigned(transfer(b, a, 1, 3))];
    assert_eq!(TokenLedger::validate_operations(&ops), Ok(vec![transfer(a, b, 1, 7)]));
    let ops = vec![unsigned(transfer(a, b, 1, 3)), unsigned(transfer(b, a, 1, 10))];
    assert_eq!(TokenLedger::validate_operations(&ops), Ok(vec![transfer(b, a, 1, 7)]));
    // Transfers that cancel out pass nothing on.
    let ops = vec![unsigned(transfer(a, b, 1, 5)), unsigned(transfer(b, a, 1, 5))];
    assert_eq!(TokenLedger::validate_operations(&ops), Ok(vec![]));
}

#[test]
fn refine_keeps_mints_first_and_groups_by_token() {
    let (a, b) = ordered_accounts();
    let c = account(5);
    let ops = vec![
        unsigned(transfer(a, b, 2, 4)),
        unsigned(mint(c, 9, 100)),
        unsigned(transfer(a, b, 1, 6)),
        unsigned(mint(a, 3, 1)),
    ];
    assert_eq!(
        TokenLedger::validate_operations(&ops),
        Ok(vec![mint(c, 9, 100), mint(a, 3, 1), transfer(a, b, 1, 6), transfer(a, b, 2, 4)])
    );
}

#[test]
fn refine_drops_invalid_operations() {
    let (a, b) = ordered_accounts();
    let bad = invalid_key();
    let ops = vec![
        unsigned(mint(a, 1, 0)),
        unsigned(transfer(a, b, 1, 0)),
        unsigned(transfer(a, a, 1, 5)),
        unsigned(transfer(bad, b, 1, 5)),
    ];
    assert_eq!(TokenLedger::validate_operations(&ops), Ok(vec![]));
    // A transfer to an account that is not a key is still fine.
    let ops = vec![unsigned(transfer(a, bad, 1, 5))];
    assert_eq!(TokenLedger::validate_operations(&ops), Ok(vec![transfer(a, bad, 1, 5)]));
}

#[test]
fn refine_accepts_bad_signatures() {
    let (a, b) = ordered_accounts();
    let signed = SignedOperation { operation: transfer(a, b, 1, 5), signature: [0xab; 64] };
    assert_eq!(TokenLedger::validate_operations(&vec![signed]), Ok(vec![transfer(a, b, 1, 5)]));
}

#[test]
fn refine_reports_amount_overflow() {
    let (a, b) = ordered_accounts();
    let ops = vec![
        unsigned(transfer(a, b, 1, i64::MAX as u64)),
        unsigned(transfer(a, b, 1, 1)),
    ];
    assert_eq!(TokenLedger::validate_operations(&ops), Err(LedgerError::AmountOverflow));
    assert_eq!(TokenLedger::refine(&ops), Err(LedgerError::AmountOverflow));
    // 2^63 from the greater account cannot be negated.
    let ops = vec![unsigned(transfer(b, a, 1, 1u64 << 63))];
    assert_eq!(TokenLedger::validate_operations(&ops), Err(LedgerError::AmountOverflow));
    // From the lesser account it nets to i64::MIN, which cannot be passed on.
    let ops = vec![unsigned(transfer(a, b, 1, 1u64 << 63))];
    assert_eq!(TokenLedger::validate_operations(&ops), Err(LedgerError::AmountOverflow));
    // Up to i64::MAX in one direction is fine.
    let ops = vec![unsigned(transfer(b, a, 1, i64::MAX as u64))];
    assert_eq!(
        TokenLedger::validate_operations(&ops),
        Ok(vec![transfer(b, a, 1, i64::MAX as u64)])
    );
}

#[test]
fn refine_output_is_the_encoded_validated_list() {
    let (a, b) = ordered_accounts();
    let ops = vec![
        unsigned(mint(a, 1, 1000)),
        unsigned(transfer(b, a, 1, 30)),
        unsigned(transfer(a, b, 1, 10)),
    ];
    let expected = vec![mint(a, 1, 1000), transfer(b, a, 1, 20)];
    assert_eq!(TokenLedger::refine(&ops), Ok(codec_list(&expected)));
    assert_eq!(TokenLedger::refine(&Vec::new()), Ok(vec![0u8]));
}

#[test]
fn signature_outcome_maps_the_verdict() {
    assert_eq!(token_ledger::crypto::signature_outcome(Ok(())), Ok(()));
    assert_eq!(
        token_ledger::crypto::signature_outcome(Err(ed25519_consensus::Error::InvalidSignature)),
        Err("Signature verification failed")
    );
}

#[test]
fn signature_checks_need_a_key() {
    let key = signing_key(6);
    let op = mint([2; 32], 4, 8);
    let signature: [u8; 64] = key.sign(&encode_operation(&op)).to_bytes();
    let key_bytes = key.verification_key().to_bytes();
    assert_eq!(check_signature(&op, &signature, key_bytes), Some(Ok(())));
    assert_eq!(
        check_signature(&mint([2; 32], 4, 9), &signature, key_bytes),
        Some(Err("Signature verification failed"))
    );
    assert_eq!(check_signature(&op, &signature, invalid_key()), None);
    // The admin key decodes, and does not sign for another key.
    assert_eq!(
        check_signature(&op, &signature, admin()),
        Some(Err("Signature verification failed"))
    );
}
