use mineblock::signature::{check_signature, outcome_of, SignatureCheck};
use secp256k1::{Message, PublicKey, SecretKey};

fn secret(seed: u8) -> SecretKey {
    SecretKey::from_secret_bytes([seed; 32]).expect("a valid secret key")
}

fn sign(digest: [u8; 32], key: &SecretKey) -> Vec<u8> {
    secp256k1::ecdsa::sign(Message::from_digest(digest), key).serialize_der().to_vec()
}

fn public(key: &SecretKey) -> Vec<u8> {
    PublicKey::from_secret_key(key).serialize().to_vec()
}

#[test]
fn outcome_reports_the_first_thing_that_is_wrong() {
    assert_eq!(outcome_of(true, true, true), SignatureCheck::Valid);
    assert_eq!(outcome_of(true, true, false), SignatureCheck::Incorrect);
    assert_eq!(outcome_of(true, false, true), SignatureCheck::MalformedPublicKey);
    assert_eq!(outcome_of(true, false, false), SignatureCheck::MalformedPublicKey);
    assert_eq!(outcome_of(false, true, true), SignatureCheck::MalformedSignature);
    assert_eq!(outcome_of(false, true, false), SignatureCheck::MalformedSignature);
    assert_eq!(outcome_of(false, false, true), SignatureCheck::MalformedSignature);
    assert_eq!(outcome_of(false, false, false), SignatureCheck::MalformedSignature);
}

#[test]
fn correct_signature_is_valid() {
    let key = secret(0x11);
    let digest = [0x33; 32];
    assert_eq!(check_signature(&sign(digest, &key), &digest, &public(&key)), SignatureCheck::Valid);
}

#[test]
fn uncompressed_public_key_is_accepted() {
    let key = secret(0x12);
    let digest = [0x34; 32];
    let long = PublicKey::from_secret_key(&key).serialize_uncompressed();
    assert_eq!(long.len(), 65);
    assert_eq!(check_signature(&sign(digest, &key), &digest, &long), SignatureCheck::Valid);
}

#[test]
fn signature_over_another_digest_is_incorrect() {
    let key = secret(0x11);
    let signature = sign([0x33; 32], &key);
    assert_eq!(check_signature(&signature, &[0x34; 32], &public(&key)), SignatureCheck::Incorrect);
}

#[test]
fn signature_under_another_key_is_incorrect() {
    let digest = [0x33; 32];
    let signature = sign(digest, &secret(0x11));
    assert_eq!(
        check_signature(&signature, &digest, &public(&secret(0x12))),
        SignatureCheck::Incorrect
    );
}

#[test]
fn bytes_that_are_no_signature_are_malformed() {
    let key = secret(0x11);
    let digest = [0x33; 32];
    let good = sign(digest, &key);
    assert_eq!(
        check_signature(&[], &digest, &public(&key)),
        SignatureCheck::MalformedSignature
    );
    assert_eq!(
        check_signature(&vec![0xa5; good.len()], &digest, &public(&key)),
        SignatureCheck::MalformedSignature
    );
    // one byte too many
    let mut longer = good.clone();
    longer.push(0x01);
    assert_eq!(
        check_signature(&longer, &digest, &public(&key)),
        SignatureCheck::MalformedSignature
    );
    // malformed signature is reported before a malformed key
    assert_eq!(check_signature(&[0x30], &digest, &[]), SignatureCheck::MalformedSignature);
}

#[test]
fn bytes_that_are_no_public_key_are_malformed() {
    let key = secret(0x11);
    let digest = [0x33; 32];
    let signature = sign(digest, &key);
    assert_eq!(check_signature(&signature, &digest, &[]), SignatureCheck::MalformedPublicKey);
    assert_eq!(
        check_signature(&signature, &digest, &[0x02; 20]),
        SignatureCheck::MalformedPublicKey
    );
    let mut cut = public(&key);
    cut.pop();
    assert_eq!(check_signature(&signature, &digest, &cut), SignatureCheck::MalformedPublicKey);
    // right length, wrong tag byte
    let mut tagged = public(&key);
    tagged[0] = 0x05;
    assert_eq!(check_signature(&signature, &digest, &tagged), SignatureCheck::MalformedPublicKey);
}

#[test]
fn flipping_a_bit_of_the_signature_invalidates_it() {
    let key = secret(0x21);
    let digest = [0x44; 32];
    let good = sign(digest, &key);
    let pk = public(&key);
    for i in 0..good.len() {
        let mut bad = good.clone();
        bad[i] ^= 0x01;
        assert_ne!(check_signature(&bad, &digest, &pk), SignatureCheck::Valid, "byte {}", i);
    }
}
