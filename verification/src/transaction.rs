//! Transaction validation: every input is classified, its signature and
//! public key are taken from its unlocking data, and the signature is
//! checked over the double hash of the transaction bytes followed by the
//! hash type. A transaction is accepted as a whole or not at all.

use vstd::prelude::*;
use vstd::slice::slice_subrange;
use crate::block::WitnessBundle;
use crate::bytes::{append_bytes, copy_items, items_view, stacks_view};
use crate::codec::{decode_transaction, inputs_view, outputs_view, parse_transaction};
use crate::codec::{InputModel, OutputModel, Transaction, TxError, TxInput, TxModel, TxOutput};
use crate::hash::{double_hash, double_sha256};
use crate::script::{classification, classify, ScriptKind};
use crate::signature::{check_signature, signature_check, SignatureCheck};

verus! {

/// The one signature hash type that is supported: all inputs and outputs
/// are signed.
pub const SIGHASH_ALL: u8 = 0x01;

/// The largest number of bytes that a single-byte push opcode pushes.
pub const MAX_DIRECT_PUSH: u8 = 75;

/// What was decided about one input.
#[derive(Clone, Copy, Debug, PartialEq, Eq, Structural)]
pub enum InputVerdict {
    /// The script is recognised and the signature is valid.
    Accepted,
    /// The script has none of the recognised shapes.
    ScriptMismatch,
    /// Signature or public key are missing or malformed, or the signature
    /// does not fit.
    InvalidSignature,
}

/// Splits an unlocking script that consists of exactly two direct pushes
/// into what they push: the signature, then the public key.
pub open spec fn two_pushes(script_sig: Seq<u8>) -> Option<(Seq<u8>, Seq<u8>)> {
    if script_sig.len() >= 2 {
        let first = script_sig[0] as int;
        if 1 <= first <= 75 && first + 2 <= script_sig.len() {
            let second = script_sig[first + 1] as int;
            if 1 <= second <= 75 && first + second + 2 == script_sig.len() {
                Some(
                    (
                        script_sig.subrange(1, first + 1),
                        script_sig.subrange(first + 2, first + second + 2),
                    ),
                )
            } else {
                None
            }
        } else {
            None
        }
    } else {
        None
    }
}

/// The signature and the public key that an input of the given kind
/// presents: pushed by the unlocking script of a legacy spend, the first
/// two witness items of a witness spend.
pub open spec fn credentials(kind: ScriptKind, input: InputModel) -> Option<(Seq<u8>, Seq<u8>)> {
    match kind {
        ScriptKind::LegacyPKH => two_pushes(input.script_sig),
        ScriptKind::WitnessPKH | ScriptKind::WrappedWitnessPKH => if input.witness.len() >= 2 {
            Some((input.witness[0], input.witness[1]))
        } else {
            None
        },
        ScriptKind::Unrecognized => None,
    }
}

/// The verdict on an input of the given kind whose signature check, where
/// it presented a signature and a key, ended as `check` says.
pub open spec fn verdict_of(kind: ScriptKind, check: Option<SignatureCheck>) -> InputVerdict {
    if kind == ScriptKind::Unrecognized {
        InputVerdict::ScriptMismatch
    } else if check == Some(SignatureCheck::Valid) {
        InputVerdict::Accepted
    } else {
        InputVerdict::InvalidSignature
    }
}

/// The verdict on `input` where `digest` is what must have been signed, or
/// the error that its classification ends in.
pub open spec fn input_verdict(digest: Seq<u8>, input: InputModel, outputs: Seq<OutputModel>) -> Result<
    InputVerdict,
    TxError,
> {
    match classification(input, outputs) {
        Err(e) => Err(e),
        Ok(kind) => Ok(
            verdict_of(
                kind,
                match credentials(kind, input) {
                    Some((signature, key)) => Some(signature_check(signature, digest, key)),
                    None => None,
                },
            ),
        ),
    }
}

/// The result of validating the first `n` inputs of `tx` in order: the
/// witness stacks of all of them where all are accepted; nothing where the
/// first input that is not accepted is rejected; the error where its
/// classification ends in one.
pub open spec fn validation(digest: Seq<u8>, tx: TxModel, n: nat) -> Result<
    Option<Seq<Seq<Seq<u8>>>>,
    TxError,
>
    decreases n,
{
    if n == 0 {
        Ok(Some(Seq::empty()))
    } else {
        match validation(digest, tx, (n - 1) as nat) {
            Ok(Some(stacks)) => match input_verdict(digest, tx.inputs[n - 1], tx.outputs) {
                Err(e) => Err(e),
                Ok(InputVerdict::Accepted) => Ok(Some(stacks.push(tx.inputs[n - 1].witness))),
                Ok(_) => Ok(None),
            },
            Ok(None) => Ok(None),
            Err(e) => Err(e),
        }
    }
}

/// The bytes whose double hash is signed: the transaction bytes followed
/// by the hash type.
pub open spec fn sighash_preimage(tx_bytes: Seq<u8>) -> Seq<u8> {
    tx_bytes.push(0x01u8)
}

/// What the signatures of a raw transaction must sign: the double hash of
/// its preimage.
pub open spec fn sighash(tx_bytes: Seq<u8>) -> Seq<u8> {
    double_sha256(sighash_preimage(tx_bytes))
}

/// The result of validating the raw transaction `tx_bytes`.
pub open spec fn transaction_outcome(tx_bytes: Seq<u8>) -> Result<
    Option<Seq<Seq<Seq<u8>>>>,
    TxError,
> {
    match parse_transaction(tx_bytes) {
        None => Err(TxError::MalformedEncoding),
        Some(tx) => validation(sighash(tx_bytes), tx, tx.inputs.len()),
    }
}

/// A validation result with the bundle, where there is one, as sequences.
pub open spec fn outcome_view(r: Result<Option<WitnessBundle>, TxError>) -> Result<
    Option<Seq<Seq<Seq<u8>>>>,
    TxError,
> {
    match r {
        Ok(Some(bundle)) => Ok(Some(stacks_view(bundle))),
        Ok(None) => Ok(None),
        Err(e) => Err(e),
    }
}

/// Splits an unlocking script of two direct pushes into signature and
/// public key.
pub fn split_script_sig<'a>(script_sig: &'a [u8]) -> (r: Option<(&'a [u8], &'a [u8])>)
    ensures
        match (two_pushes(script_sig@), r) {
            (Some((signature, key)), Some((s, k))) => s@ == signature && k@ == key,
            (None, None) => true,
            _ => false,
        },
{
    if script_sig.len() < 2 {
        return None;
    }
    let first: usize = script_sig[0] as usize;
    if first < 1 || first > MAX_DIRECT_PUSH as usize || script_sig.len() - 2 < first {
        return None;
    }
    let second: usize = script_sig[first + 1] as usize;
    if second < 1 || second > MAX_DIRECT_PUSH as usize || script_sig.len() - 2 - first != second {
        return None;
    }
    Some(
        (
            slice_subrange(script_sig, 1, first + 1),
            slice_subrange(script_sig, first + 2, first + second + 2),
        ),
    )
}

/// The signature and the public key that `input` presents as an input of
/// the given kind.
pub fn extract_credentials<'a>(kind: ScriptKind, input: &'a TxInput) -> (r: Option<
    (&'a [u8], &'a [u8]),
>)
    ensures
        match (credentials(kind, input@), r) {
            (Some((signature, key)), Some((s, k))) => s@ == signature && k@ == key,
            (None, None) => true,
            _ => false,
        },
{
    match kind {
        ScriptKind::LegacyPKH => split_script_sig(input.script_sig.as_slice()),
        ScriptKind::WitnessPKH | ScriptKind::WrappedWitnessPKH => {
            if input.witness.len() >= 2 {
                Some((input.witness[0].as_slice(), input.witness[1].as_slice()))
            } else {
                None
            }
        },
        ScriptKind::Unrecognized => None,
    }
}

/// The verdict on an input of the given kind, given how its signature
/// check ended; `None` stands for an input that presents no signature and
/// key in the place where its kind has them.
pub fn decide(kind: ScriptKind, check: Option<SignatureCheck>) -> (verdict: InputVerdict)
    ensures
        verdict == verdict_of(kind, check),
{
    match kind {
        ScriptKind::Unrecognized => InputVerdict::ScriptMismatch,
        _ => match check {
            Some(SignatureCheck::Valid) => InputVerdict::Accepted,
            _ => InputVerdict::InvalidSignature,
        },
    }
}

/// Decides about one input of a transaction with the given outputs, where
/// `digest` is what must have been signed.
pub fn check_input(input: &TxInput, outputs: &Vec<TxOutput>, digest: &[u8; 32]) -> (r: Result<
    InputVerdict,
    TxError,
>)
    ensures
        r == input_verdict(digest@, input@, outputs_view(*outputs)),
{
    let kind = match classify(input, outputs) {
        Err(e) => { return Err(e); },
        Ok(kind) => kind,
    };
    let check = match extract_credentials(kind, input) {
        Some((signature, key)) => Some(check_signature(signature, digest, key)),
        None => None,
    };
    Ok(decide(kind, check))
}

/// Validates the inputs of `tx` in order, where `digest` is what must have
/// been signed.
///
/// Returns the witness stacks of all inputs where every input is accepted,
/// `None` as soon as an input is rejected, and the error as soon as the
/// classification of an input ends in one.
pub fn validate_inputs(tx: &Transaction, digest: &[u8; 32]) -> (r: Result<
    Option<WitnessBundle>,
    TxError,
>)
    ensures
        outcome_view(r) == validation(digest@, tx@, tx@.inputs.len()),
{
    let mut bundle: WitnessBundle = Vec::new();
    let mut i: usize = 0;
    assert(stacks_view(bundle) =~= Seq::<Seq<Seq<u8>>>::empty());
    while i < tx.inputs.len()
        invariant
            i <= tx.inputs.len(),
            tx@.inputs.len() == tx.inputs.len(),
            validation(digest@, tx@, i as nat) == Ok::<Option<Seq<Seq<Seq<u8>>>>, TxError>(
                Some(stacks_view(bundle)),
            ),
        decreases tx.inputs.len() - i,
    {
        let input = &tx.inputs[i];
        assert(tx@.inputs[i as int] == input@);
        match check_input(input, &tx.outputs, digest) {
            Err(e) => {
                proof {
                    lemma_validation_settled(digest@, tx@, (i + 1) as nat, tx@.inputs.len());
                }
                return Err(e);
            },
            Ok(InputVerdict::Accepted) => {
                let ghost before = stacks_view(bundle);
                let stack = copy_items(&input.witness);
                bundle.push(stack);
                assert(stacks_view(bundle) =~= before.push(tx@.inputs[i as int].witness));
            },
            Ok(_) => {
                proof {
                    lemma_validation_settled(digest@, tx@, (i + 1) as nat, tx@.inputs.len());
                }
                return Ok(None);
            },
        }
        i += 1;
    }
    Ok(Some(bundle))
}

/// Validates a raw transaction.
///
/// Fails with [`TxError::MalformedEncoding`] where the bytes do not decode.
/// Otherwise every input is checked against the double hash of the bytes
/// followed by the hash type, as [`validate_inputs`] does.
pub fn validate_transaction(tx_bytes: &[u8]) -> (r: Result<Option<WitnessBundle>, TxError>)
    ensures
        outcome_view(r) == transaction_outcome(tx_bytes@),
{
    let tx = match decode_transaction(tx_bytes) {
        Err(e) => { return Err(e); },
        Ok(tx) => tx,
    };
    let mut preimage: Vec<u8> = Vec::new();
    append_bytes(&mut preimage, tx_bytes);
    preimage.push(SIGHASH_ALL);
    assert(preimage@ =~= sighash_preimage(tx_bytes@));
    let digest = double_hash(preimage.as_slice());
    validate_inputs(&tx, &digest)
}

/// Once validation has ended without a bundle, further inputs change
/// nothing.
pub proof fn lemma_validation_settled(digest: Seq<u8>, tx: TxModel, k: nat, n: nat)
    requires
        k <= n,
        !(validation(digest, tx, k) matches Ok(Some(_))),
    ensures
        validation(digest, tx, n) == validation(digest, tx, k),
    decreases n,
{
    if k < n {
        lemma_validation_settled(digest, tx, k, (n - 1) as nat);
    }
}

/// The witness stacks of the first `n` inputs.
pub open spec fn witness_stacks(tx: TxModel, n: nat) -> Seq<Seq<Seq<u8>>> {
    Seq::new(n, |i: int| tx.inputs[i].witness)
}

/// Whether each of the first `n` inputs is accepted.
pub open spec fn all_accepted(digest: Seq<u8>, tx: TxModel, n: nat) -> bool {
    forall|i: int|
        0 <= i < n ==> #[trigger] input_verdict(digest, tx.inputs[i], tx.outputs) == Ok::<
            InputVerdict,
            TxError,
        >(InputVerdict::Accepted)
}

/// Validation yields a bundle exactly when every input is accepted, and
/// the bundle then holds the witness stack of every input, unchanged and in
/// order.
pub proof fn lemma_bundle_iff_all_accepted(digest: Seq<u8>, tx: TxModel, n: nat)
    ensures
        all_accepted(digest, tx, n) <==> validation(digest, tx, n) matches Ok(Some(_)),
        all_accepted(digest, tx, n) ==> validation(digest, tx, n) == Ok::<
            Option<Seq<Seq<Seq<u8>>>>,
            TxError,
        >(Some(witness_stacks(tx, n))),
    decreases n,
{
    if n > 0 {
        lemma_bundle_iff_all_accepted(digest, tx, (n - 1) as nat);
        if all_accepted(digest, tx, n) {
            assert(all_accepted(digest, tx, (n - 1) as nat));
            assert(input_verdict(digest, tx.inputs[n - 1], tx.outputs) == Ok::<
                InputVerdict,
                TxError,
            >(InputVerdict::Accepted));
            assert(witness_stacks(tx, n) =~= witness_stacks(tx, (n - 1) as nat).push(
                tx.inputs[n - 1].witness,
            ));
        }
        if validation(digest, tx, n) matches Ok(Some(_)) {
            assert(all_accepted(digest, tx, (n - 1) as nat));
            assert forall|i: int| 0 <= i < n implies #[trigger] input_verdict(
                digest,
                tx.inputs[i],
                tx.outputs,
            ) == Ok::<InputVerdict, TxError>(InputVerdict::Accepted) by {
                if i < n - 1 {
                } else {
                }
            }
        }
    } else {
        assert(witness_stacks(tx, 0) =~= Seq::<Seq<Seq<u8>>>::empty());
    }
}

/// Where the inputs before input `i` are all accepted and input `i` is
/// rejected, validation yields no bundle and no error, whatever the inputs
/// behind it are.
pub proof fn lemma_rejected_input_no_bundle(digest: Seq<u8>, tx: TxModel, i: nat, n: nat)
    requires
        i < n,
        all_accepted(digest, tx, i),
        input_verdict(digest, tx.inputs[i as int], tx.outputs) matches Ok(v) && v
            != InputVerdict::Accepted,
    ensures
        validation(digest, tx, n) == Ok::<Option<Seq<Seq<Seq<u8>>>>, TxError>(None),
{
    lemma_bundle_iff_all_accepted(digest, tx, i);
    assert(validation(digest, tx, i + 1) == Ok::<Option<Seq<Seq<Seq<u8>>>>, TxError>(None));
    lemma_validation_settled(digest, tx, i + 1, n);
}

/// An input whose signature check does not end in `Valid` is never
/// accepted, so a transaction that holds one yields no bundle.
pub proof fn lemma_bad_signature_no_bundle(digest: Seq<u8>, tx: TxModel, i: nat, n: nat)
    requires
        i < n,
        match classification(tx.inputs[i as int], tx.outputs) {
            Ok(kind) => match credentials(kind, tx.inputs[i as int]) {
                Some((signature, key)) => signature_check(signature, digest, key)
                    != SignatureCheck::Valid,
                None => true,
            },
            Err(_) => true,
        },
    ensures
        !(validation(digest, tx, n) matches Ok(Some(_))),
{
    lemma_bundle_iff_all_accepted(digest, tx, n);
    assert(input_verdict(digest, tx.inputs[i as int], tx.outputs) != Ok::<InputVerdict, TxError>(
        InputVerdict::Accepted,
    ));
}

/// A raw transaction yields a bundle exactly when it decodes and every one
/// of its inputs is accepted; the bundle then holds the witness stack of
/// every input, unchanged and in order.
pub proof fn lemma_outcome_bundle(tx_bytes: Seq<u8>)
    ensures
        transaction_outcome(tx_bytes) matches Ok(Some(_)) <==> match parse_transaction(tx_bytes) {
            Some(tx) => all_accepted(sighash(tx_bytes), tx, tx.inputs.len()),
            None => false,
        },
        match parse_transaction(tx_bytes) {
            Some(tx) => all_accepted(sighash(tx_bytes), tx, tx.inputs.len())
                ==> transaction_outcome(tx_bytes) == Ok::<Option<Seq<Seq<Seq<u8>>>>, TxError>(
                Some(witness_stacks(tx, tx.inputs.len())),
            ),
            None => true,
        },
{
    match parse_transaction(tx_bytes) {
        Some(tx) => {
            lemma_bundle_iff_all_accepted(sighash(tx_bytes), tx, tx.inputs.len());
        },
        None => {},
    }
}

} // verus!
