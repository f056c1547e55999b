//! Ed25519 signature checks on ledger operations.
use vstd::prelude::*;
use ed25519_consensus::VerificationKey;
use crate::ledger::{encode_operation, operation_encoding, Operation};

verus! {

#[verifier::external_type_specification]
#[verifier::external_body]
pub struct ExVerificationKey(ed25519_consensus::VerificationKey);

#[verifier::external_type_specification]
#[verifier::external_body]
pub struct ExEd25519Error(ed25519_consensus::Error);

/// Whether 32 bytes decode to a point of Curve25519 that
/// `ed25519_consensus` accepts as a verification key.
pub uninterp spec fn ed25519_key_decodes(bytes: Seq<u8>) -> bool;

/// Calls `<VerificationKey as TryFrom<[u8; 32]>>::try_from`, which
/// decompresses the point encoded by `bytes`. The contract names the
/// outcome: the call succeeds exactly when `ed25519_key_decodes(bytes)`.
#[verifier::external_body]
pub(crate) fn verification_key_from_bytes(bytes: [u8; 32]) -> (r: Result<
    VerificationKey,
    ed25519_consensus::Error,
>)
    ensures
        r.is_ok() == ed25519_key_decodes(bytes@),
{
    VerificationKey::try_from(bytes)
}

/// Whether Ed25519 verification, as `ed25519_consensus` does it, accepts
/// the 64 signature bytes `sig` over the message `msg` under the key whose
/// 32 bytes are `key`.
pub uninterp spec fn ed25519_verifies(key: Seq<u8>, sig: Seq<u8>, msg: Seq<u8>) -> bool;

/// Builds the verification key from its bytes with
/// `<VerificationKey as TryFrom<[u8; 32]>>::try_from` and calls
/// `VerificationKey::verify` on the signature made of `sig` (with
/// `Signature::from`) and `msg`. The contract names the outcome: the call
/// succeeds exactly when `ed25519_verifies(key, sig, msg)`, a function of
/// the three byte strings alone. The key's bytes must decode, so that the
/// key is built.
#[verifier::external_body]
fn verify_with_key_bytes(key: &[u8; 32], sig: &[u8; 64], msg: &[u8]) -> (r: Result<
    (),
    ed25519_consensus::Error,
>)
    requires
        ed25519_key_decodes(key@),
    ensures
        r.is_ok() == ed25519_verifies(key@, sig@, msg@),
{
    match VerificationKey::try_from(*key) {
        Ok(k) => k.verify(&ed25519_consensus::Signature::from(*sig), msg),
        Err(e) => Err(e),
    }
}

/// The key of the account that authorises mints: the all-zero key bytes.
pub fn admin() -> (key: [u8; 32])
    ensures
        key@ == Seq::new(32, |i: int| 0u8),
{
    let key = [0u8; 32];
    assert(key@ =~= Seq::new(32, |i: int| 0u8));
    key
}

/// Whether `bytes` is a verification key that `ed25519_consensus` accepts.
pub fn is_valid_verification_key(bytes: &[u8; 32]) -> (r: bool)
    ensures
        r == ed25519_key_decodes(bytes@),
{
    verification_key_from_bytes(*bytes).is_ok()
}

/// Checks `signature` over the encoding of `op` with the verification key
/// whose bytes are `key`: `Ok` exactly when Ed25519 verification accepts
/// it, otherwise the failure message.
pub fn verify_signature(op: &Operation, signature: &[u8; 64], key: [u8; 32]) -> (r: Result<
    (),
    &'static str,
>)
    requires
        ed25519_key_decodes(key@),
    ensures
        r is Ok <==> ed25519_verifies(key@, signature@, operation_encoding(*op)),
        r is Ok ==> r == Ok::<(), &'static str>(()),
        r is Err ==> r == Err::<(), &'static str>("Signature verification failed"),
{
    let message = encode_operation(op);
    signature_outcome(verify_with_key_bytes(&key, signature, message.as_slice()))
}

/// The answer to a signature check, from what `VerificationKey::verify`
/// returned: `Ok` when it accepted the signature, otherwise the failure
/// message.
pub fn signature_outcome(verdict: Result<(), ed25519_consensus::Error>) -> (r: Result<
    (),
    &'static str,
>)
    ensures
        verdict is Ok ==> r == Ok::<(), &'static str>(()),
        verdict is Err ==> r == Err::<(), &'static str>("Signature verification failed"),
{
    match verdict {
        Ok(()) => Ok(()),
        Err(_) => Err("Signature verification failed"),
    }
}

/// Checks the signature of `op` against the key encoded by `key_bytes`:
/// `None` when those bytes are no key at all, otherwise the outcome of
/// `verify_signature`. The ledger takes it as advice only: it accepts
/// operations whatever it is.
pub fn check_signature(op: &Operation, signature: &[u8; 64], key_bytes: [u8; 32]) -> (r: Option<
    Result<(), &'static str>,
>)
    ensures
        r is None <==> !ed25519_key_decodes(key_bytes@),
        r matches Some(v) ==> (v is Ok <==> ed25519_verifies(
            key_bytes@,
            signature@,
            operation_encoding(*op),
        )) && (v is Err ==> v == Err::<(), &'static str>("Signature verification failed")),
{
    if is_valid_verification_key(&key_bytes) {
        Some(verify_signature(op, signature, key_bytes))
    } else {
        None
    }
}

} // verus!
