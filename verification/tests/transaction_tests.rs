use mineblock::block::{construct_block, split_block};
use mineblock::codec::{decode_transaction, encode_transaction};
use mineblock::codec::{Transaction, TxError, TxInput, TxOutput};
use mineblock::hash::double_hash;
use mineblock::script::ScriptKind;
use mineblock::signature::SignatureCheck;
use mineblock::transaction::{check_input, decide, extract_credentials, split_script_sig};
use mineblock::transaction::{validate_inputs, validate_transaction, InputVerdict};
use secp256k1::{Message, PublicKey, SecretKey};

const DIGEST: [u8; 32] = [0x33; 32];

fn secret(seed: u8) -> SecretKey {
    SecretKey::from_secret_bytes([seed; 32]).expect("a valid secret key")
}

fn sign(digest: [u8; 32], key: &SecretKey) -> Vec<u8> {
    secp256k1::ecdsa::sign(Message::from_digest(digest), key).serialize_der().to_vec()
}

fn public(key: &SecretKey) -> Vec<u8> {
    PublicKey::from_secret_key(key).serialize().to_vec()
}

fn p2pkh() -> Vec<u8> {
    let mut s = vec![0x76, 0xa9, 0x14];
    s.extend_from_slice(&[0x5a; 20]);
    s.extend_from_slice(&[0x88, 0xac]);
    s
}

fn program() -> Vec<u8> {
    let mut s = vec![0x00, 0x14];
    s.extend_from_slice(&[0x5a; 20]);
    s
}

fn pushes(signature: &[u8], key: &[u8]) -> Vec<u8> {
    let mut s = vec![signature.len() as u8];
    s.extend_from_slice(signature);
    s.push(key.len() as u8);
    s.extend_from_slice(key);
    s
}

fn input(prev_index: u32, script_sig: Vec<u8>, witness: Vec<Vec<u8>>) -> TxInput {
    TxInput { prev_txid: [0x22; 32], prev_index, script_sig, sequence: 0xffff_ffff, witness }
}

fn legacy_input(digest: [u8; 32], seed: u8) -> TxInput {
    let key = secret(seed);
    input(0, pushes(&sign(digest, &key), &public(&key)), vec![])
}

fn witness_input(digest: [u8; 32], seed: u8) -> TxInput {
    let key = secret(seed);
    input(0, vec![], vec![sign(digest, &key), public(&key), vec![0x5a; 20]])
}

fn wrapped_input(digest: [u8; 32], seed: u8) -> TxInput {
    let key = secret(seed);
    let mut script_sig = vec![0x16];
    script_sig.extend_from_slice(&program());
    input(0, script_sig, vec![sign(digest, &key), public(&key), program()])
}

fn transaction(inputs: Vec<TxInput>) -> Transaction {
    let segwit = inputs.iter().any(|i| !i.witness.is_empty());
    Transaction {
        version: 1,
        segwit,
        inputs,
        outputs: vec![TxOutput { value: 10_000, script_pubkey: p2pkh() }],
        lock_time: 0,
    }
}

fn sighash(tx_bytes: &[u8]) -> [u8; 32] {
    let mut preimage = tx_bytes.to_vec();
    preimage.push(0x01);
    double_hash(&preimage)
}

#[test]
fn split_script_sig_takes_two_pushes() {
    let script = [0x02, 0xaa, 0xbb, 0x01, 0xcc];
    let (signature, key) = split_script_sig(&script).expect("two pushes");
    assert_eq!(signature, &[0xaa, 0xbb]);
    assert_eq!(key, &[0xcc]);
    let mut long = vec![75u8];
    long.extend_from_slice(&[1; 75]);
    long.push(75);
    long.extend_from_slice(&[2; 75]);
    let (signature, key) = split_script_sig(&long).expect("two pushes");
    assert_eq!(signature, &[1u8; 75][..]);
    assert_eq!(key, &[2u8; 75][..]);
}

#[test]
fn split_script_sig_rejects_other_shapes() {
    assert_eq!(split_script_sig(&[]), None);
    assert_eq!(split_script_sig(&[0x01]), None);
    assert_eq!(split_script_sig(&[0x01, 0xaa]), None);
    // empty pushes
    assert_eq!(split_script_sig(&[0x00, 0x01, 0xaa]), None);
    assert_eq!(split_script_sig(&[0x01, 0xaa, 0x00]), None);
    // second push cut short, or bytes left over
    assert_eq!(split_script_sig(&[0x01, 0xaa, 0x02, 0xbb]), None);
    assert_eq!(split_script_sig(&[0x01, 0xaa, 0x01, 0xbb, 0xcc]), None);
    // first push reads past the end
    assert_eq!(split_script_sig(&[0x05, 0xaa, 0x01, 0xbb]), None);
    // a push opcode above 75 is no direct push
    let mut long = vec![76u8];
    long.extend_from_slice(&[1; 76]);
    long.extend_from_slice(&[0x01, 0xbb]);
    assert_eq!(split_script_sig(&long), None);
}

#[test]
fn credentials_come_from_the_place_of_the_kind() {
    let both = input(0, vec![0x01, 0xaa, 0x01, 0xbb], vec![vec![0xcc], vec![0xdd], vec![0; 20]]);
    let legacy = extract_credentials(ScriptKind::LegacyPKH, &both).expect("pushes");
    assert_eq!(legacy, (&[0xaau8][..], &[0xbbu8][..]));
    let witness = extract_credentials(ScriptKind::WitnessPKH, &both).expect("items");
    assert_eq!(witness, (&[0xccu8][..], &[0xddu8][..]));
    let wrapped = extract_credentials(ScriptKind::WrappedWitnessPKH, &both).expect("items");
    assert_eq!(wrapped, (&[0xccu8][..], &[0xddu8][..]));
    assert_eq!(extract_credentials(ScriptKind::Unrecognized, &both), None);
    let short = input(0, vec![], vec![vec![0; 20]]);
    assert_eq!(extract_credentials(ScriptKind::WitnessPKH, &short), None);
    assert_eq!(extract_credentials(ScriptKind::LegacyPKH, &short), None);
}

#[test]
fn decide_accepts_only_a_recognised_script_with_a_valid_signature() {
    let kinds = [ScriptKind::LegacyPKH, ScriptKind::WitnessPKH, ScriptKind::WrappedWitnessPKH];
    for kind in kinds {
        assert_eq!(decide(kind, Some(SignatureCheck::Valid)), InputVerdict::Accepted);
        assert_eq!(decide(kind, Some(SignatureCheck::Incorrect)), InputVerdict::InvalidSignature);
        assert_eq!(
            decide(kind, Some(SignatureCheck::MalformedSignature)),
            InputVerdict::InvalidSignature
        );
        assert_eq!(
            decide(kind, Some(SignatureCheck::MalformedPublicKey)),
            InputVerdict::InvalidSignature
        );
        assert_eq!(decide(kind, None), InputVerdict::InvalidSignature);
    }
    assert_eq!(
        decide(ScriptKind::Unrecognized, Some(SignatureCheck::Valid)),
        InputVerdict::ScriptMismatch
    );
    assert_eq!(decide(ScriptKind::Unrecognized, None), InputVerdict::ScriptMismatch);
}

#[test]
fn check_input_accepts_each_recognised_kind() {
    let outputs = transaction(vec![]).outputs;
    for good in [legacy_input(DIGEST, 1), witness_input(DIGEST, 2), wrapped_input(DIGEST, 3)] {
        assert_eq!(check_input(&good, &outputs, &DIGEST), Ok(InputVerdict::Accepted));
        assert_eq!(check_input(&good, &outputs, &[0x34; 32]), Ok(InputVerdict::InvalidSignature));
    }
}

#[test]
fn check_input_names_the_reason() {
    let outputs = transaction(vec![]).outputs;
    let mut unlocked = legacy_input(DIGEST, 1);
    unlocked.script_sig = vec![];
    assert_eq!(check_input(&unlocked, &outputs, &DIGEST), Ok(InputVerdict::InvalidSignature));
    let not_p2pkh = vec![TxOutput { value: 1, script_pubkey: vec![0x51] }];
    assert_eq!(
        check_input(&legacy_input(DIGEST, 1), &not_p2pkh, &DIGEST),
        Ok(InputVerdict::ScriptMismatch)
    );
    let mut wrapped = wrapped_input(DIGEST, 3);
    wrapped.script_sig = vec![];
    assert_eq!(check_input(&wrapped, &outputs, &DIGEST), Ok(InputVerdict::ScriptMismatch));
    let mut missing = legacy_input(DIGEST, 1);
    missing.prev_index = 1;
    assert_eq!(check_input(&missing, &outputs, &DIGEST), Err(TxError::OutputOutOfRange));
    let mut odd = witness_input(DIGEST, 2);
    odd.witness.push(vec![0; 21]);
    assert_eq!(check_input(&odd, &outputs, &DIGEST), Err(TxError::UnsupportedScript));
    // the last item is the key itself: 33 bytes are no program
    let key = secret(2);
    let two_items = input(0, vec![], vec![sign(DIGEST, &key), public(&key)]);
    assert_eq!(check_input(&two_items, &outputs, &DIGEST), Err(TxError::UnsupportedScript));
}

#[test]
fn correctly_signed_inputs_give_a_populated_bundle() {
    let tx = transaction(vec![
        legacy_input(DIGEST, 1),
        witness_input(DIGEST, 2),
        wrapped_input(DIGEST, 3),
    ]);
    let bundle = validate_inputs(&tx, &DIGEST).expect("no error").expect("a bundle");
    assert_eq!(bundle.len(), 3);
    assert_eq!(bundle[0], Vec::<Vec<u8>>::new());
    assert_eq!(bundle[1], tx.inputs[1].witness);
    assert_eq!(bundle[2], tx.inputs[2].witness);
    assert_eq!(bundle[1].len(), 3);
}

#[test]
fn random_signature_of_the_same_length_gives_no_bundle() {
    for position in 0..3 {
        let mut tx = transaction(vec![
            witness_input(DIGEST, 1),
            witness_input(DIGEST, 2),
            witness_input(DIGEST, 3),
        ]);
        assert!(validate_inputs(&tx, &DIGEST).expect("no error").is_some());
        let len = tx.inputs[position].witness[0].len();
        let noise: Vec<u8> = (0..len).map(|i| (i as u8).wrapping_mul(37).wrapping_add(11)).collect();
        tx.inputs[position].witness[0] = noise;
        assert_eq!(validate_inputs(&tx, &DIGEST), Ok(None), "input {}", position);
    }
}

#[test]
fn random_signature_in_a_legacy_input_gives_no_bundle() {
    let key = secret(5);
    let good = sign(DIGEST, &key);
    let mut tx = transaction(vec![legacy_input(DIGEST, 5)]);
    assert!(validate_inputs(&tx, &DIGEST).expect("no error").is_some());
    let noise: Vec<u8> = (0..good.len()).map(|i| (i as u8).wrapping_mul(91).wrapping_add(3)).collect();
    tx.inputs[0].script_sig = pushes(&noise, &public(&key));
    assert_eq!(validate_inputs(&tx, &DIGEST), Ok(None));
}

#[test]
fn first_input_that_is_not_accepted_decides() {
    let mut bad_signature = witness_input(DIGEST, 1);
    bad_signature.witness[0] = vec![0x30, 0x00];
    let mut unsupported = witness_input(DIGEST, 2);
    unsupported.witness.push(vec![0; 5]);
    let rejected_first = transaction(vec![bad_signature.clone(), unsupported.clone()]);
    assert_eq!(validate_inputs(&rejected_first, &DIGEST), Ok(None));
    let error_first = transaction(vec![unsupported.clone(), bad_signature]);
    assert_eq!(validate_inputs(&error_first, &DIGEST), Err(TxError::UnsupportedScript));
    let error_last = transaction(vec![witness_input(DIGEST, 3), unsupported]);
    assert_eq!(validate_inputs(&error_last, &DIGEST), Err(TxError::UnsupportedScript));
}

#[test]
fn transaction_without_inputs_gives_an_empty_bundle() {
    let mut tx = transaction(vec![]);
    tx.segwit = true;
    assert_eq!(validate_inputs(&tx, &DIGEST), Ok(Some(vec![])));
    assert_eq!(validate_transaction(&encode_transaction(&tx)), Ok(Some(vec![])));
    tx.segwit = false;
    tx.outputs.clear();
    assert_eq!(validate_transaction(&encode_transaction(&tx)), Ok(Some(vec![])));
}

#[test]
fn validate_transaction_signs_the_bytes_with_the_hash_type() {
    let txs = [
        transaction(vec![legacy_input(DIGEST, 1)]),
        transaction(vec![witness_input(DIGEST, 2), wrapped_input(DIGEST, 3)]),
        transaction(vec![legacy_input(DIGEST, 1), legacy_input(DIGEST, 4)]),
    ];
    for tx in txs {
        let bytes = encode_transaction(&tx);
        let decoded = decode_transaction(&bytes).expect("decodes");
        assert_eq!(validate_transaction(&bytes), validate_inputs(&decoded, &sighash(&bytes)));
    }
}

#[test]
fn signature_over_another_message_gives_no_bundle() {
    // the signatures are valid, but for a digest that is not that of the bytes
    let tx = transaction(vec![witness_input(DIGEST, 2)]);
    assert!(validate_inputs(&tx, &DIGEST).expect("no error").is_some());
    assert_eq!(validate_transaction(&encode_transaction(&tx)), Ok(None));
    let legacy = transaction(vec![legacy_input(DIGEST, 1)]);
    assert_eq!(validate_transaction(&encode_transaction(&legacy)), Ok(None));
}

#[test]
fn malformed_bytes_are_a_hard_error() {
    assert_eq!(validate_transaction(&[]), Err(TxError::MalformedEncoding));
    assert_eq!(validate_transaction(&[1, 0, 0]), Err(TxError::MalformedEncoding));
    let bytes = encode_transaction(&transaction(vec![witness_input(DIGEST, 2)]));
    assert_eq!(validate_transaction(&bytes[..bytes.len() - 1]), Err(TxError::MalformedEncoding));
    assert_eq!(validate_transaction(&bytes[..50]), Err(TxError::MalformedEncoding));
}

#[test]
fn unsupported_witness_program_is_a_hard_error() {
    let mut odd = witness_input(DIGEST, 2);
    odd.witness.push(vec![0; 32]);
    let bytes = encode_transaction(&transaction(vec![odd]));
    assert_eq!(validate_transaction(&bytes), Err(TxError::UnsupportedScript));
}

#[test]
fn missing_output_is_a_hard_error() {
    let mut missing = legacy_input(DIGEST, 1);
    missing.prev_index = 7;
    let bytes = encode_transaction(&transaction(vec![missing]));
    assert_eq!(validate_transaction(&bytes), Err(TxError::OutputOutOfRange));
}

#[test]
fn unrecognised_script_gives_no_bundle() {
    let mut tx = transaction(vec![legacy_input(DIGEST, 1)]);
    tx.outputs[0].script_pubkey[24] = 0xad;
    assert_eq!(validate_inputs(&tx, &DIGEST), Ok(None));
    assert_eq!(validate_transaction(&encode_transaction(&tx)), Ok(None));
}

#[test]
fn accepted_bundle_goes_into_the_block() {
    let tx = transaction(vec![witness_input(DIGEST, 2)]);
    let bytes = encode_transaction(&tx);
    let bundle = validate_inputs(&tx, &DIGEST).expect("no error").expect("a bundle");
    let block = construct_block(&[0x01], &[(bytes.clone(), bundle.clone())]);
    let mut body = bytes.clone();
    for item in &bundle[0] {
        body.extend_from_slice(&(item.len() as u64).to_le_bytes());
        body.extend_from_slice(item);
    }
    let mut expected = vec![0u8; 80];
    expected.extend_from_slice(&[1, 0, 0, 0, 0, 0, 0, 0, 0x01]);
    expected.extend_from_slice(&(body.len() as u64).to_le_bytes());
    expected.extend_from_slice(&body);
    assert_eq!(block, expected);
}

#[test]
fn transaction_is_read_back_from_the_block() {
    let tx = transaction(vec![witness_input(DIGEST, 2), wrapped_input(DIGEST, 3)]);
    let bytes = encode_transaction(&tx);
    let bundle = validate_inputs(&tx, &DIGEST).expect("no error").expect("a bundle");
    let block = construct_block(&[0x01], &[(bytes.clone(), bundle)]);
    let bodies = split_block(&block).expect("well-formed block");
    assert_eq!(bodies.len(), 2);
    assert_eq!(&bodies[1][..bytes.len()], &bytes[..]);
    assert!(bodies[1].len() > bytes.len());
    assert_eq!(decode_transaction(&bodies[1]), Ok(tx));
}
