//! ECDSA signature checks over secp256k1.

use vstd::prelude::*;
use secp256k1::ecdsa::Signature;
use secp256k1::{Message, PublicKey};

verus! {

/// Whether `data` is the DER encoding of an ECDSA signature, as
/// `secp256k1` parses it.
pub uninterp spec fn der_signature_parses(data: Seq<u8>) -> bool;

/// Whether `data` is a serialized secp256k1 public key, as `secp256k1`
/// parses it.
pub uninterp spec fn public_key_parses(data: Seq<u8>) -> bool;

/// Whether the signature that `signature` encodes is valid for the 32-byte
/// `digest` under the public key that `public_key` encodes, as `secp256k1`
/// verifies it.
pub uninterp spec fn ecdsa_verifies(
    signature: Seq<u8>,
    digest: Seq<u8>,
    public_key: Seq<u8>,
) -> bool;

/// How the check of one signature ended.
#[derive(Clone, Copy, Debug, PartialEq, Eq, Structural)]
pub enum SignatureCheck {
    /// The signature is valid for the digest under the key.
    Valid,
    /// The signature bytes are no DER signature.
    MalformedSignature,
    /// The key bytes are no public key.
    MalformedPublicKey,
    /// Signature and key are well-formed, and the signature does not fit.
    Incorrect,
}

/// Calls `secp256k1::ecdsa::Signature::from_der` on `data`.
///
/// Trusted: whether the call succeeds depends on the bytes alone, and it
/// fails on empty input.
#[verifier::external_body]
fn parses_as_signature(data: &[u8]) -> (ok: bool)
    ensures
        ok == der_signature_parses(data@),
        data@.len() == 0 ==> !ok,
{
    Signature::from_der(data).is_ok()
}

/// Calls `secp256k1::PublicKey::from_slice` on `data`.
///
/// Trusted: whether the call succeeds depends on the bytes alone, and it
/// fails on input that is neither 33 nor 65 bytes long.
#[verifier::external_body]
fn parses_as_public_key(data: &[u8]) -> (ok: bool)
    ensures
        ok == public_key_parses(data@),
        ok ==> data@.len() == 33 || data@.len() == 65,
{
    PublicKey::from_slice(data).is_ok()
}

/// Calls `secp256k1::ecdsa::verify` on the signature that `signature`
/// parses to, on `digest` as the message and on the key that `public_key`
/// parses to.
///
/// Trusted: whether the call succeeds depends on the three byte strings
/// alone.
#[verifier::external_body]
fn verifies(signature: &[u8], digest: &[u8; 32], public_key: &[u8]) -> (ok: bool)
    requires
        der_signature_parses(signature@),
        public_key_parses(public_key@),
    ensures
        ok == ecdsa_verifies(signature@, digest@, public_key@),
{
    match (Signature::from_der(signature), PublicKey::from_slice(public_key)) {
        (Ok(sig), Ok(key)) => {
            secp256k1::ecdsa::verify(&sig, Message::from_digest(*digest), &key).is_ok()
        },
        _ => false,
    }
}

/// What the check of a signature comes to, given whether the signature
/// parses, whether the key parses and whether the signature verifies.
pub open spec fn check_outcome(signature_ok: bool, key_ok: bool, verified: bool) -> SignatureCheck {
    if !signature_ok {
        SignatureCheck::MalformedSignature
    } else if !key_ok {
        SignatureCheck::MalformedPublicKey
    } else if verified {
        SignatureCheck::Valid
    } else {
        SignatureCheck::Incorrect
    }
}

/// The outcome of checking `signature` over `digest` under `public_key`.
pub open spec fn signature_check(signature: Seq<u8>, digest: Seq<u8>, public_key: Seq<u8>) -> SignatureCheck {
    check_outcome(
        der_signature_parses(signature),
        public_key_parses(public_key),
        ecdsa_verifies(signature, digest, public_key),
    )
}

/// Combines the answers of the curve library into the outcome of a check:
/// a malformed signature is reported before a malformed key, and
/// `verified` counts only where both are well-formed.
pub fn outcome_of(signature_ok: bool, key_ok: bool, verified: bool) -> (r: SignatureCheck)
    ensures
        r == check_outcome(signature_ok, key_ok, verified),
        r == SignatureCheck::Valid <==> signature_ok && key_ok && verified,
{
    if !signature_ok {
        SignatureCheck::MalformedSignature
    } else if !key_ok {
        SignatureCheck::MalformedPublicKey
    } else if verified {
        SignatureCheck::Valid
    } else {
        SignatureCheck::Incorrect
    }
}

/// Checks the DER-encoded `signature` over `digest` under the serialized
/// `public_key`.
pub fn check_signature(signature: &[u8], digest: &[u8; 32], public_key: &[u8]) -> (r: SignatureCheck)
    ensures
        r == signature_check(signature@, digest@, public_key@),
        signature@.len() == 0 ==> r == SignatureCheck::MalformedSignature,
        r == SignatureCheck::Valid ==> public_key@.len() == 33 || public_key@.len() == 65,
{
    let signature_ok = parses_as_signature(signature);
    let key_ok = parses_as_public_key(public_key);
    let verified = if signature_ok && key_ok {
        verifies(signature, digest, public_key)
    } else {
        false
    };
    outcome_of(signature_ok, key_ok, verified)
}

} // verus!
