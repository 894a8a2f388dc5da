//! Script shapes: telling a pay-to-public-key-hash spend from a witness
//! spend and from its wrapped variant, byte for byte.

use vstd::prelude::*;
use vstd::slice::slice_subrange;
use crate::bytes::{append_bytes, bytes_equal};
use crate::codec::{output_at, outputs_view, InputModel, OutputModel, TxError, TxInput, TxOutput};

verus! {

/// `OP_DUP`.
pub const OP_DUP: u8 = 0x76;

/// `OP_HASH160`.
pub const OP_HASH160: u8 = 0xa9;

/// The opcode that pushes the next 20 bytes.
pub const OP_PUSHBYTES_20: u8 = 0x14;

/// The opcode that pushes the next 32 bytes.
pub const OP_PUSHBYTES_32: u8 = 0x20;

/// `OP_EQUALVERIFY`.
pub const OP_EQUALVERIFY: u8 = 0x88;

/// `OP_CHECKSIG`.
pub const OP_CHECKSIG: u8 = 0xac;

/// `OP_0`, the witness version.
pub const OP_0: u8 = 0x00;

/// Length of a pay-to-public-key-hash locking script.
pub const P2PKH_LEN: usize = 25;

/// Length of a bare witness program: a 20-byte key hash.
pub const KEY_HASH_LEN: usize = 20;

/// Length of a version byte, a push opcode and a 20-byte key hash.
pub const PROGRAM_LEN: usize = 22;

/// Length of a wrapper script: two opcodes and a 22-byte program.
pub const WRAPPER_LEN: usize = 24;

/// The spending condition that an input claims to meet.
#[derive(Clone, Copy, Debug, PartialEq, Eq, Structural)]
pub enum ScriptKind {
    /// No witness; the spent output is locked to a public key hash.
    LegacyPKH,
    /// The witness ends in a 20-byte key hash.
    WitnessPKH,
    /// The witness ends in a 22-byte program that the unlocking script also
    /// ends in.
    WrappedWitnessPKH,
    /// None of the shapes above.
    Unrecognized,
}

/// The locking script `OP_DUP OP_HASH160 <hash> OP_EQUALVERIFY OP_CHECKSIG`.
pub open spec fn p2pkh_script(hash: Seq<u8>) -> Seq<u8> {
    seq![0x76u8, 0xa9u8, 0x14u8] + hash + seq![0x88u8, 0xacu8]
}

/// Whether `script` is the pay-to-public-key-hash script of some 20-byte
/// hash.
pub open spec fn is_p2pkh_script(script: Seq<u8>) -> bool {
    script.len() == 25 && script == p2pkh_script(script.subrange(3, 23))
}

/// Whether `program` is a version-0 witness program for a 20-byte key hash:
/// `OP_0 <push 20> <hash>`.
pub open spec fn is_key_hash_program(program: Seq<u8>) -> bool {
    program.len() == 22 && program[0] == 0x00 && program[1] == 0x14
}

/// The wrapper script rebuilt from a witness program: `OP_0 <push 32>` and
/// the program.
pub open spec fn wrapper_script(program: Seq<u8>) -> Seq<u8> {
    seq![0x00u8, 0x20u8] + program
}

/// The last `n` bytes of `script`.
pub open spec fn tail(script: Seq<u8>, n: int) -> Seq<u8> {
    script.subrange(script.len() - n, script.len() as int)
}

/// Whether `script_pubkey` is a wrapper script around a key-hash program
/// and `script_sig` ends in that program.
pub open spec fn unlocks_wrapper(script_sig: Seq<u8>, script_pubkey: Seq<u8>) -> bool {
    &&& script_pubkey.len() == 24
    &&& script_pubkey == wrapper_script(script_pubkey.subrange(2, 24))
    &&& is_key_hash_program(script_pubkey.subrange(2, 24))
    &&& script_sig.len() >= 22
    &&& tail(script_sig, 22) == script_pubkey.subrange(2, 24)
}

/// The kind of an input, given the outputs that its index refers to.
///
/// Without a witness the input is a legacy spend of the output at
/// `prev_index`: there is an error where that output is missing. With a
/// witness its last item decides: 20 bytes make a key hash, 22 bytes a
/// program that the unlocking script must end in, and any other length is
/// an error.
pub open spec fn classification(input: InputModel, outputs: Seq<OutputModel>) -> Result<
    ScriptKind,
    TxError,
> {
    if input.witness.len() == 0 {
        if input.prev_index < outputs.len() {
            if is_p2pkh_script(outputs[input.prev_index as int].script_pubkey) {
                Ok(ScriptKind::LegacyPKH)
            } else {
                Ok(ScriptKind::Unrecognized)
            }
        } else {
            Err(TxError::OutputOutOfRange)
        }
    } else {
        let program = input.witness.last();
        if program.len() == 20 {
            Ok(ScriptKind::WitnessPKH)
        } else if program.len() == 22 {
            if unlocks_wrapper(input.script_sig, wrapper_script(program)) {
                Ok(ScriptKind::WrappedWitnessPKH)
            } else {
                Ok(ScriptKind::Unrecognized)
            }
        } else {
            Err(TxError::UnsupportedScript)
        }
    }
}

/// Whether `script` is a pay-to-public-key-hash locking script.
pub fn matches_p2pkh(script: &[u8]) -> (ok: bool)
    ensures
        ok == is_p2pkh_script(script@),
{
    let ok = script.len() == P2PKH_LEN && script[0] == OP_DUP && script[1] == OP_HASH160
        && script[2] == OP_PUSHBYTES_20 && script[23] == OP_EQUALVERIFY && script[24]
        == OP_CHECKSIG;
    proof {
        if script@.len() == 25 {
            let built = p2pkh_script(script@.subrange(3, 23));
            assert(built.len() == 25);
            assert(built[0] == 0x76 && built[1] == 0xa9 && built[2] == 0x14);
            assert(built[23] == 0x88 && built[24] == 0xac);
            assert forall|i: int| 3 <= i < 23 implies built[i] == script@[i] by {
                assert(built[i] == script@.subrange(3, 23)[i - 3]);
            }
            if ok {
                assert(script@ =~= built);
            }
        }
    }
    ok
}

/// Whether the locking script of the output that a legacy input spends is
/// a pay-to-public-key-hash script, byte for byte. The unlocking script
/// plays no part: what it pushes is checked with the signature.
pub fn script_valid(script_sig: &[u8], script_pubkey: &[u8]) -> (ok: bool)
    ensures
        ok == is_p2pkh_script(script_pubkey@),
{
    matches_p2pkh(script_pubkey)
}

/// Whether `wrapper` is a wrapper script around a key-hash program and
/// `script_sig` ends in that program, byte for byte.
pub fn unlocks_wrapped_program(script_sig: &[u8], wrapper: &[u8]) -> (ok: bool)
    ensures
        ok == unlocks_wrapper(script_sig@, wrapper@),
{
    if wrapper.len() != WRAPPER_LEN || script_sig.len() < PROGRAM_LEN {
        return false;
    }
    let ghost program = wrapper@.subrange(2, 24);
    proof {
        let built = wrapper_script(program);
        assert(built.len() == 24);
        assert(built[0] == 0x00 && built[1] == 0x20);
        assert forall|i: int| 2 <= i < 24 implies built[i] == wrapper@[i] by {
            assert(built[i] == program[i - 2]);
        }
        if wrapper@[0] == 0x00 && wrapper@[1] == 0x20 {
            assert(wrapper@ =~= built);
        }
        assert(program[0] == wrapper@[2] && program[1] == wrapper@[3]);
    }
    if wrapper[0] != OP_0 || wrapper[1] != OP_PUSHBYTES_32 || wrapper[2] != OP_0 || wrapper[3]
        != OP_PUSHBYTES_20 {
        return false;
    }
    let end: usize = script_sig.len();
    bytes_equal(
        slice_subrange(script_sig, end - PROGRAM_LEN, end),
        slice_subrange(wrapper, 2, WRAPPER_LEN),
    )
}

/// Classifies `input` against the outputs of its transaction.
pub fn classify(input: &TxInput, outputs: &Vec<TxOutput>) -> (r: Result<ScriptKind, TxError>)
    ensures
        r == classification(input@, outputs_view(*outputs)),
{
    if input.witness.len() == 0 {
        let spent = match output_at(outputs, input.prev_index as usize) {
            Err(e) => { return Err(e); },
            Ok(output) => output,
        };
        assert(outputs_view(*outputs)[input.prev_index as int] == spent@);
        if script_valid(input.script_sig.as_slice(), spent.script_pubkey.as_slice()) {
            Ok(ScriptKind::LegacyPKH)
        } else {
            Ok(ScriptKind::Unrecognized)
        }
    } else {
        let program = &input.witness[input.witness.len() - 1];
        assert(input@.witness.last() == program@);
        if program.len() == KEY_HASH_LEN {
            Ok(ScriptKind::WitnessPKH)
        } else if program.len() == PROGRAM_LEN {
            let mut wrapper: Vec<u8> = Vec::new();
            wrapper.push(OP_0);
            wrapper.push(OP_PUSHBYTES_32);
            append_bytes(&mut wrapper, program.as_slice());
            assert(wrapper@ =~= wrapper_script(program@));
            if unlocks_wrapped_program(input.script_sig.as_slice(), wrapper.as_slice()) {
                Ok(ScriptKind::WrappedWitnessPKH)
            } else {
                Ok(ScriptKind::Unrecognized)
            }
        } else {
            Err(TxError::UnsupportedScript)
        }
    }
}

/// The pay-to-public-key-hash script of any 20-byte hash is recognised.
pub proof fn lemma_p2pkh_script_recognised(hash: Seq<u8>)
    requires
        hash.len() == 20,
    ensures
        is_p2pkh_script(p2pkh_script(hash)),
{
    let script = p2pkh_script(hash);
    assert(script.subrange(3, 23) =~= hash);
}

/// A wrapper script is no pay-to-public-key-hash script, whatever program
/// it wraps and whatever the unlocking script ends in.
pub proof fn lemma_wrapper_script_not_p2pkh(program: Seq<u8>)
    requires
        program.len() == 22,
    ensures
        !is_p2pkh_script(wrapper_script(program)),
{
}

/// An input without a witness is a legacy spend exactly when the output
/// that it refers to is locked by a pay-to-public-key-hash script; with any
/// other locking script it is unrecognised.
pub proof fn lemma_legacy_iff_pattern(input: InputModel, outputs: Seq<OutputModel>)
    requires
        input.witness.len() == 0,
        input.prev_index < outputs.len(),
    ensures
        classification(input, outputs) == Ok::<ScriptKind, TxError>(ScriptKind::LegacyPKH)
            <==> is_p2pkh_script(outputs[input.prev_index as int].script_pubkey),
        classification(input, outputs) != Ok::<ScriptKind, TxError>(ScriptKind::LegacyPKH)
            ==> classification(input, outputs) == Ok::<ScriptKind, TxError>(
            ScriptKind::Unrecognized,
        ),
{
}

/// Whether `i` is the position of an opcode in a pay-to-public-key-hash
/// script, as opposed to a byte of the hash.
pub open spec fn is_opcode_position(i: int) -> bool {
    i == 0 || i == 1 || i == 2 || i == 23 || i == 24
}

/// `outputs` with the locking script of the output at `index` replaced.
pub open spec fn with_locking_script(
    outputs: Seq<OutputModel>,
    index: int,
    script: Seq<u8>,
) -> Seq<OutputModel> {
    outputs.update(index, OutputModel { value: outputs[index].value, script_pubkey: script })
}

/// Changing any one opcode byte of a pay-to-public-key-hash script gives a
/// script that is no longer recognised, so a legacy spend of it becomes
/// unrecognised.
pub proof fn lemma_opcode_mutation_unrecognised(
    input: InputModel,
    outputs: Seq<OutputModel>,
    i: int,
    byte: u8,
)
    requires
        input.witness.len() == 0,
        input.prev_index < outputs.len(),
        is_p2pkh_script(outputs[input.prev_index as int].script_pubkey),
        is_opcode_position(i),
        byte != outputs[input.prev_index as int].script_pubkey[i],
    ensures
        !is_p2pkh_script(outputs[input.prev_index as int].script_pubkey.update(i, byte)),
        classification(
            input,
            with_locking_script(
                outputs,
                input.prev_index as int,
                outputs[input.prev_index as int].script_pubkey.update(i, byte),
            ),
        ) == Ok::<ScriptKind, TxError>(ScriptKind::Unrecognized),
{
    let script = outputs[input.prev_index as int].script_pubkey;
    let changed = script.update(i, byte);
    let rebuilt = p2pkh_script(script.subrange(3, 23));
    assert(rebuilt[0] == 0x76 && rebuilt[1] == 0xa9 && rebuilt[2] == 0x14);
    assert(rebuilt[23] == 0x88 && rebuilt[24] == 0xac);
    let again = p2pkh_script(changed.subrange(3, 23));
    assert(again[0] == 0x76 && again[1] == 0xa9 && again[2] == 0x14);
    assert(again[23] == 0x88 && again[24] == 0xac);
    assert(changed[i] == byte);
    assert(changed != again);
}

} // verus!
