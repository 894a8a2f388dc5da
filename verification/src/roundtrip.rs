//! Decoding inverts encoding: every well-formed transaction is read back
//! from its own bytes, and bytes behind a transaction do not change what is
//! read.

use vstd::prelude::*;
use crate::bytes::{byte_range, le_bytes, le_value};
use crate::bytes::{lemma_byte_range_values, lemma_le_bytes_len, lemma_le_roundtrip};
use crate::codec::{blob, blobs, compact, input_bytes, inputs_bytes, output_bytes, outputs_bytes};
use crate::codec::{has_witness_marker, parse_transaction, read_blob, read_blobs, read_compact};
use crate::codec::{read_input, read_input_section, read_inputs, read_output, read_output_section};
use crate::codec::{read_outputs, read_stack, read_stacks, read_uint, read_witness_section};
use crate::codec::{serialize, stack_bytes};
use crate::codec::{with_witness, witness_bytes, InputModel, OutputModel, TxModel};

verus! {

/// Whether `b` holds `enc` at position `pos`.
pub open spec fn holds_at(b: Seq<u8>, pos: int, enc: Seq<u8>) -> bool {
    0 <= pos && pos + enc.len() <= b.len() && b.subrange(pos, pos + enc.len()) == enc
}

/// Whether every item is short enough for its length to be encoded.
pub open spec fn items_fit(items: Seq<Seq<u8>>) -> bool {
    &&& items.len() <= u64::MAX
    &&& forall|i: int| 0 <= i < items.len() ==> #[trigger] items[i].len() <= u64::MAX
}

/// Whether an input can be encoded.
pub open spec fn input_fits(input: InputModel) -> bool {
    &&& input.prev_txid.len() == 32
    &&& input.script_sig.len() <= u64::MAX
    &&& items_fit(input.witness)
}

/// Whether a transaction can be encoded and read back: ids are 32 bytes
/// long, every count and length fits in 64 bits, and a transaction without
/// the witness marker carries no witness items and is not one whose first
/// two counts, zero inputs and one output, read as the marker.
pub open spec fn well_formed(tx: TxModel) -> bool {
    &&& tx.inputs.len() <= u64::MAX
    &&& tx.outputs.len() <= u64::MAX
    &&& forall|i: int| 0 <= i < tx.inputs.len() ==> input_fits(#[trigger] tx.inputs[i])
    &&& forall|i: int|
        0 <= i < tx.outputs.len() ==> (#[trigger] tx.outputs[i]).script_pubkey.len() <= u64::MAX
    &&& !tx.segwit ==> {
        &&& forall|i: int|
            0 <= i < tx.inputs.len() ==> (#[trigger] tx.inputs[i]).witness == Seq::<
                Seq<u8>,
            >::empty()
        &&& !(tx.inputs.len() == 0 && tx.outputs.len() == 1)
    }
}

/// `input` without its witness stack.
pub open spec fn bare(input: InputModel) -> InputModel {
    InputModel {
        prev_txid: input.prev_txid,
        prev_index: input.prev_index,
        script_sig: input.script_sig,
        sequence: input.sequence,
        witness: Seq::empty(),
    }
}

/// Where a buffer holds two encodings one behind the other, it holds each
/// of them.
proof fn lemma_holds_split(b: Seq<u8>, pos: int, x: Seq<u8>, y: Seq<u8>)
    requires
        holds_at(b, pos, x + y),
    ensures
        holds_at(b, pos, x),
        holds_at(b, pos + x.len(), y),
{
    let w = b.subrange(pos, pos + (x + y).len());
    assert(b.subrange(pos, pos + x.len()) =~= w.subrange(0, x.len() as int));
    assert((x + y).subrange(0, x.len() as int) =~= x);
    assert(b.subrange(pos + x.len(), pos + x.len() + y.len()) =~= w.subrange(
        x.len() as int,
        (x + y).len() as int,
    ));
    assert((x + y).subrange(x.len() as int, (x + y).len() as int) =~= y);
}

/// A fixed-width integer is read back.
proof fn lemma_read_uint(b: Seq<u8>, pos: int, value: nat, width: nat)
    requires
        holds_at(b, pos, le_bytes(value, width)),
        value < byte_range(width),
    ensures
        read_uint(b, pos, width as int) == Some((value, pos + width)),
{
    lemma_le_bytes_len(value, width);
    lemma_le_roundtrip(value, width);
}

/// A compact size is as long as its first byte says, and that byte is zero
/// only for zero and one only for one.
proof fn lemma_compact_shape(n: nat)
    ensures
        compact(n).len() >= 1,
        compact(n)[0] == 0 <==> n == 0,
        compact(n)[0] == 1 <==> n == 1,
{
    lemma_le_bytes_len(n, 2);
    lemma_le_bytes_len(n, 4);
    lemma_le_bytes_len(n, 8);
}

/// A compact size is read back.
proof fn lemma_read_compact(b: Seq<u8>, pos: int, n: nat)
    requires
        holds_at(b, pos, compact(n)),
        n <= u64::MAX,
    ensures
        read_compact(b, pos) == Some((n, pos + compact(n).len())),
{
    lemma_byte_range_values();
    lemma_le_bytes_len(n, 2);
    lemma_le_bytes_len(n, 4);
    lemma_le_bytes_len(n, 8);
    let enc = compact(n);
    assert(b[pos] == b.subrange(pos, pos + enc.len())[0]);
    if n < 0xfd {
    } else if n <= 0xffff {
        lemma_holds_split(b, pos, seq![0xfdu8], le_bytes(n, 2));
        lemma_read_uint(b, pos + 1, n, 2);
    } else if n <= 0xffff_ffff {
        lemma_holds_split(b, pos, seq![0xfeu8], le_bytes(n, 4));
        lemma_read_uint(b, pos + 1, n, 4);
    } else {
        lemma_holds_split(b, pos, seq![0xffu8], le_bytes(n, 8));
        lemma_read_uint(b, pos + 1, n, 8);
    }
}

/// A blob is read back.
proof fn lemma_read_blob(b: Seq<u8>, pos: int, bytes: Seq<u8>)
    requires
        holds_at(b, pos, blob(bytes)),
        bytes.len() <= u64::MAX,
    ensures
        read_blob(b, pos) == Some((bytes, pos + blob(bytes).len())),
{
    lemma_holds_split(b, pos, compact(bytes.len()), bytes);
    lemma_read_compact(b, pos, bytes.len());
}

/// A run of blobs is read back.
proof fn lemma_read_blobs(b: Seq<u8>, pos: int, items: Seq<Seq<u8>>)
    requires
        holds_at(b, pos, blobs(items)),
        items_fit(items),
    ensures
        read_blobs(b, pos, items.len()) == Some((items, pos + blobs(items).len())),
    decreases items.len(),
{
    if items.len() > 0 {
        let front = items.drop_last();
        lemma_holds_split(b, pos, blobs(front), blob(items.last()));
        assert(items_fit(front)) by {
            assert forall|i: int| 0 <= i < front.len() implies #[trigger] front[i].len()
                <= u64::MAX by {
                assert(front[i] == items[i]);
            }
        }
        lemma_read_blobs(b, pos, front);
        lemma_read_blob(b, pos + blobs(front).len(), items.last());
        assert(front.push(items.last()) =~= items);
    } else {
        assert(items =~= Seq::<Seq<u8>>::empty());
    }
}

/// A witness stack is read back.
proof fn lemma_read_stack(b: Seq<u8>, pos: int, items: Seq<Seq<u8>>)
    requires
        holds_at(b, pos, stack_bytes(items)),
        items_fit(items),
    ensures
        read_stack(b, pos) == Some((items, pos + stack_bytes(items).len())),
{
    lemma_holds_split(b, pos, compact(items.len()), blobs(items));
    lemma_read_compact(b, pos, items.len());
    lemma_read_blobs(b, pos + compact(items.len()).len(), items);
}

/// An input is read back, without its witness stack.
proof fn lemma_read_input(b: Seq<u8>, pos: int, input: InputModel)
    requires
        holds_at(b, pos, input_bytes(input)),
        input_fits(input),
    ensures
        read_input(b, pos) == Some((bare(input), pos + input_bytes(input).len())),
{
    lemma_byte_range_values();
    let id = input.prev_txid;
    let index = le_bytes(input.prev_index as nat, 4);
    let script = blob(input.script_sig);
    let sequence = le_bytes(input.sequence as nat, 4);
    lemma_le_bytes_len(input.prev_index as nat, 4);
    lemma_le_bytes_len(input.sequence as nat, 4);
    lemma_holds_split(b, pos, id + index + script, sequence);
    lemma_holds_split(b, pos, id + index, script);
    lemma_holds_split(b, pos, id, index);
    lemma_read_blob(b, pos + 36, input.script_sig);
    lemma_le_roundtrip(input.prev_index as nat, 4);
    lemma_le_roundtrip(input.sequence as nat, 4);
    let p = pos + 36 + script.len();
    assert(b.subrange(pos, pos + 32) == id);
    assert(b.subrange(pos + 32, pos + 36) == index);
    assert(b.subrange(p, p + 4) == sequence);
}

/// A run of inputs is read back, without witness stacks.
proof fn lemma_read_inputs(b: Seq<u8>, pos: int, inputs: Seq<InputModel>)
    requires
        holds_at(b, pos, inputs_bytes(inputs)),
        forall|i: int| 0 <= i < inputs.len() ==> input_fits(#[trigger] inputs[i]),
    ensures
        read_inputs(b, pos, inputs.len()) == Some(
            (Seq::new(inputs.len(), |i: int| bare(inputs[i])), pos + inputs_bytes(inputs).len()),
        ),
    decreases inputs.len(),
{
    let all = Seq::new(inputs.len(), |i: int| bare(inputs[i]));
    if inputs.len() > 0 {
        let front = inputs.drop_last();
        lemma_holds_split(b, pos, inputs_bytes(front), input_bytes(inputs.last()));
        assert forall|i: int| 0 <= i < front.len() implies input_fits(#[trigger] front[i]) by {
            assert(front[i] == inputs[i]);
        }
        lemma_read_inputs(b, pos, front);
        lemma_read_input(b, pos + inputs_bytes(front).len(), inputs.last());
        assert(Seq::new(front.len(), |i: int| bare(front[i])).push(bare(inputs.last())) =~= all);
    } else {
        assert(all =~= Seq::<InputModel>::empty());
    }
}

/// An output is read back.
proof fn lemma_read_output(b: Seq<u8>, pos: int, output: OutputModel)
    requires
        holds_at(b, pos, output_bytes(output)),
        output.script_pubkey.len() <= u64::MAX,
    ensures
        read_output(b, pos) == Some((output, pos + output_bytes(output).len())),
{
    lemma_byte_range_values();
    lemma_le_bytes_len(output.value as nat, 8);
    lemma_holds_split(b, pos, le_bytes(output.value as nat, 8), blob(output.script_pubkey));
    lemma_read_blob(b, pos + 8, output.script_pubkey);
    lemma_le_roundtrip(output.value as nat, 8);
    assert(b.subrange(pos, pos + 8) == le_bytes(output.value as nat, 8));
}

/// A run of outputs is read back.
proof fn lemma_read_outputs(b: Seq<u8>, pos: int, outputs: Seq<OutputModel>)
    requires
        holds_at(b, pos, outputs_bytes(outputs)),
        forall|i: int|
            0 <= i < outputs.len() ==> (#[trigger] outputs[i]).script_pubkey.len() <= u64::MAX,
    ensures
        read_outputs(b, pos, outputs.len()) == Some((outputs, pos + outputs_bytes(outputs).len())),
    decreases outputs.len(),
{
    if outputs.len() > 0 {
        let front = outputs.drop_last();
        lemma_holds_split(b, pos, outputs_bytes(front), output_bytes(outputs.last()));
        assert forall|i: int| 0 <= i < front.len() implies (#[trigger] front[i]).script_pubkey.len()
            <= u64::MAX by {
            assert(front[i] == outputs[i]);
        }
        lemma_read_outputs(b, pos, front);
        lemma_read_output(b, pos + outputs_bytes(front).len(), outputs.last());
        assert(front.push(outputs.last()) =~= outputs);
    } else {
        assert(outputs =~= Seq::<OutputModel>::empty());
    }
}

/// The witness stacks of a run of inputs are read back.
proof fn lemma_read_stacks(b: Seq<u8>, pos: int, inputs: Seq<InputModel>)
    requires
        holds_at(b, pos, witness_bytes(inputs)),
        forall|i: int| 0 <= i < inputs.len() ==> input_fits(#[trigger] inputs[i]),
    ensures
        read_stacks(b, pos, inputs.len()) == Some(
            (Seq::new(inputs.len(), |i: int| inputs[i].witness), pos + witness_bytes(inputs).len()),
        ),
    decreases inputs.len(),
{
    let all = Seq::new(inputs.len(), |i: int| inputs[i].witness);
    if inputs.len() > 0 {
        let front = inputs.drop_last();
        lemma_holds_split(b, pos, witness_bytes(front), stack_bytes(inputs.last().witness));
        assert forall|i: int| 0 <= i < front.len() implies input_fits(#[trigger] front[i]) by {
            assert(front[i] == inputs[i]);
        }
        lemma_read_stacks(b, pos, front);
        lemma_read_stack(b, pos + witness_bytes(front).len(), inputs.last().witness);
        assert(Seq::new(front.len(), |i: int| front[i].witness).push(inputs.last().witness)
            =~= all);
    } else {
        assert(all =~= Seq::<Seq<Seq<u8>>>::empty());
    }
}

/// Decoding the encoding of a well-formed transaction gives the
/// transaction back.
pub proof fn lemma_decode_inverts_encode(tx: TxModel)
    requires
        well_formed(tx),
    ensures
        parse_transaction(serialize(tx)) == Some(tx),
{
    let b = serialize(tx);
    let version = le_bytes(tx.version as nat, 4);
    let marker: Seq<u8> = if tx.segwit {
        seq![0x00u8, 0x01u8]
    } else {
        Seq::empty()
    };
    let n_in = compact(tx.inputs.len());
    let ins = inputs_bytes(tx.inputs);
    let n_out = compact(tx.outputs.len());
    let outs = outputs_bytes(tx.outputs);
    let wit: Seq<u8> = if tx.segwit {
        witness_bytes(tx.inputs)
    } else {
        Seq::empty()
    };
    let lock = le_bytes(tx.lock_time as nat, 4);
    lemma_byte_range_values();
    lemma_le_bytes_len(tx.version as nat, 4);
    lemma_le_bytes_len(tx.lock_time as nat, 4);
    lemma_le_roundtrip(tx.version as nat, 4);
    lemma_le_roundtrip(tx.lock_time as nat, 4);
    assert(b == version + marker + n_in + ins + n_out + outs + wit + lock);
    assert(b.subrange(0, 0 + b.len() as int) =~= b);
    lemma_holds_split(b, 0, version + marker + n_in + ins + n_out + outs + wit, lock);
    lemma_holds_split(b, 0, version + marker + n_in + ins + n_out + outs, wit);
    lemma_holds_split(b, 0, version + marker + n_in + ins + n_out, outs);
    lemma_holds_split(b, 0, version + marker + n_in + ins, n_out);
    lemma_holds_split(b, 0, version + marker + n_in, ins);
    lemma_holds_split(b, 0, version + marker, n_in);
    lemma_holds_split(b, 0, version, marker);
    let start: int = 4 + marker.len() as int;
    lemma_compact_shape(tx.inputs.len());
    lemma_compact_shape(tx.outputs.len());
    // the marker is seen exactly where it was written
    assert(has_witness_marker(b) == tx.segwit) by {
        if tx.segwit {
            assert(b[4] == b.subrange(4, 6)[0]);
            assert(b[5] == b.subrange(4, 6)[1]);
        } else {
            assert(b[4] == b.subrange(4, 4 + n_in.len() as int)[0]);
            if tx.inputs.len() == 0 {
                assert(ins.len() == 0);
                let p: int = 4 + n_in.len() as int;
                assert(n_in.len() == 1);
                assert(b[5] == b.subrange(p, p + n_out.len() as int)[0]);
            }
        }
    }
    lemma_read_compact(b, start, tx.inputs.len());
    let at_inputs = start + n_in.len();
    lemma_read_inputs(b, at_inputs, tx.inputs);
    let at_outputs = at_inputs + ins.len();
    assert(read_input_section(b, start) == Some(
        (Seq::new(tx.inputs.len(), |i: int| bare(tx.inputs[i])), at_outputs),
    ));
    lemma_read_compact(b, at_outputs, tx.outputs.len());
    lemma_read_outputs(b, at_outputs + n_out.len(), tx.outputs);
    let at_witness = at_outputs + n_out.len() + outs.len();
    assert(read_output_section(b, at_outputs) == Some((tx.outputs, at_witness)));
    let bare_inputs = Seq::new(tx.inputs.len(), |i: int| bare(tx.inputs[i]));
    let stacks = Seq::new(tx.inputs.len(), |i: int| tx.inputs[i].witness);
    if tx.segwit {
        lemma_read_stacks(b, at_witness, tx.inputs);
    } else {
        assert(stacks =~= Seq::new(tx.inputs.len(), |i: int| Seq::<Seq<u8>>::empty()));
    }
    let at_lock = at_witness + wit.len();
    assert(with_witness(bare_inputs, stacks) =~= tx.inputs);
    assert(b.subrange(0, 4) == version);
    assert(b.subrange(at_lock, at_lock + 4) == lock);
}

/// A fixed-width integer that was read is read again, unchanged, where
/// more bytes follow the buffer.
proof fn lemma_uint_extends(b: Seq<u8>, extra: Seq<u8>, pos: int, width: int)
    requires
        read_uint(b, pos, width) is Some,
        width >= 0,
    ensures
        read_uint(b + extra, pos, width) == read_uint(b, pos, width),
{
    assert((b + extra).subrange(pos, pos + width) =~= b.subrange(pos, pos + width));
}

/// A compact size that was read is read again where more bytes follow.
proof fn lemma_compact_extends(b: Seq<u8>, extra: Seq<u8>, pos: int)
    requires
        read_compact(b, pos) is Some,
    ensures
        read_compact(b + extra, pos) == read_compact(b, pos),
{
    assert((b + extra)[pos] == b[pos]);
    let tag = b[pos];
    if tag < 0xfd {
    } else if tag == 0xfd {
        lemma_uint_extends(b, extra, pos + 1, 2);
    } else if tag == 0xfe {
        lemma_uint_extends(b, extra, pos + 1, 4);
    } else {
        lemma_uint_extends(b, extra, pos + 1, 8);
    }
}

/// A blob that was read is read again where more bytes follow.
proof fn lemma_blob_extends(b: Seq<u8>, extra: Seq<u8>, pos: int)
    requires
        read_blob(b, pos) is Some,
    ensures
        read_blob(b + extra, pos) == read_blob(b, pos),
{
    lemma_compact_extends(b, extra, pos);
    match read_compact(b, pos) {
        Some((n, p)) => {
            assert((b + extra).subrange(p, p + n) =~= b.subrange(p, p + n));
        },
        None => {},
    }
}

/// A run of blobs that was read is read again where more bytes follow.
proof fn lemma_blobs_extend(b: Seq<u8>, extra: Seq<u8>, pos: int, count: nat)
    requires
        read_blobs(b, pos, count) is Some,
    ensures
        read_blobs(b + extra, pos, count) == read_blobs(b, pos, count),
    decreases count,
{
    if count > 0 {
        lemma_blobs_extend(b, extra, pos, (count - 1) as nat);
        match read_blobs(b, pos, (count - 1) as nat) {
            Some((items, p)) => {
                lemma_blob_extends(b, extra, p);
            },
            None => {},
        }
    }
}

/// A witness stack that was read is read again where more bytes follow.
proof fn lemma_stack_extends(b: Seq<u8>, extra: Seq<u8>, pos: int)
    requires
        read_stack(b, pos) is Some,
    ensures
        read_stack(b + extra, pos) == read_stack(b, pos),
{
    lemma_compact_extends(b, extra, pos);
    match read_compact(b, pos) {
        Some((n, p)) => {
            lemma_blobs_extend(b, extra, p, n);
        },
        None => {},
    }
}

/// A run of stacks that was read is read again where more bytes follow.
proof fn lemma_stacks_extend(b: Seq<u8>, extra: Seq<u8>, pos: int, count: nat)
    requires
        read_stacks(b, pos, count) is Some,
    ensures
        read_stacks(b + extra, pos, count) == read_stacks(b, pos, count),
    decreases count,
{
    if count > 0 {
        lemma_stacks_extend(b, extra, pos, (count - 1) as nat);
        match read_stacks(b, pos, (count - 1) as nat) {
            Some((stacks, p)) => {
                lemma_stack_extends(b, extra, p);
            },
            None => {},
        }
    }
}

/// An input that was read is read again where more bytes follow.
proof fn lemma_input_extends(b: Seq<u8>, extra: Seq<u8>, pos: int)
    requires
        read_input(b, pos) is Some,
    ensures
        read_input(b + extra, pos) == read_input(b, pos),
{
    lemma_blob_extends(b, extra, pos + 36);
    assert((b + extra).subrange(pos, pos + 32) =~= b.subrange(pos, pos + 32));
    assert((b + extra).subrange(pos + 32, pos + 36) =~= b.subrange(pos + 32, pos + 36));
    match read_blob(b, pos + 36) {
        Some((script, p)) => {
            assert((b + extra).subrange(p, p + 4) =~= b.subrange(p, p + 4));
        },
        None => {},
    }
}

/// A run of inputs that was read is read again where more bytes follow.
proof fn lemma_inputs_extend(b: Seq<u8>, extra: Seq<u8>, pos: int, count: nat)
    requires
        read_inputs(b, pos, count) is Some,
    ensures
        read_inputs(b + extra, pos, count) == read_inputs(b, pos, count),
    decreases count,
{
    if count > 0 {
        lemma_inputs_extend(b, extra, pos, (count - 1) as nat);
        match read_inputs(b, pos, (count - 1) as nat) {
            Some((inputs, p)) => {
                lemma_input_extends(b, extra, p);
            },
            None => {},
        }
    }
}

/// An output that was read is read again where more bytes follow.
proof fn lemma_output_extends(b: Seq<u8>, extra: Seq<u8>, pos: int)
    requires
        read_output(b, pos) is Some,
    ensures
        read_output(b + extra, pos) == read_output(b, pos),
{
    lemma_blob_extends(b, extra, pos + 8);
    assert((b + extra).subrange(pos, pos + 8) =~= b.subrange(pos, pos + 8));
}

/// A run of outputs that was read is read again where more bytes follow.
proof fn lemma_outputs_extend(b: Seq<u8>, extra: Seq<u8>, pos: int, count: nat)
    requires
        read_outputs(b, pos, count) is Some,
    ensures
        read_outputs(b + extra, pos, count) == read_outputs(b, pos, count),
    decreases count,
{
    if count > 0 {
        lemma_outputs_extend(b, extra, pos, (count - 1) as nat);
        match read_outputs(b, pos, (count - 1) as nat) {
            Some((outputs, p)) => {
                lemma_output_extends(b, extra, p);
            },
            None => {},
        }
    }
}

/// An inputs section that was read is read again where more bytes follow.
proof fn lemma_input_section_extends(b: Seq<u8>, extra: Seq<u8>, pos: int)
    requires
        read_input_section(b, pos) is Some,
    ensures
        read_input_section(b + extra, pos) == read_input_section(b, pos),
{
    lemma_compact_extends(b, extra, pos);
    match read_compact(b, pos) {
        Some((n, p)) => {
            lemma_inputs_extend(b, extra, p, n);
        },
        None => {},
    }
}

/// An outputs section that was read is read again where more bytes follow.
proof fn lemma_output_section_extends(b: Seq<u8>, extra: Seq<u8>, pos: int)
    requires
        read_output_section(b, pos) is Some,
    ensures
        read_output_section(b + extra, pos) == read_output_section(b, pos),
{
    lemma_compact_extends(b, extra, pos);
    match read_compact(b, pos) {
        Some((n, p)) => {
            lemma_outputs_extend(b, extra, p, n);
        },
        None => {},
    }
}

/// A witness section that was read is read again where more bytes follow,
/// and it ends no earlier than it starts.
proof fn lemma_witness_section_extends(
    b: Seq<u8>,
    extra: Seq<u8>,
    pos: int,
    segwit: bool,
    count: nat,
)
    requires
        read_witness_section(b, pos, segwit, count) is Some,
    ensures
        read_witness_section(b + extra, pos, segwit, count) == read_witness_section(
            b,
            pos,
            segwit,
            count,
        ),
        match read_witness_section(b, pos, segwit, count) {
            Some((stacks, end)) => end >= pos,
            None => true,
        },
{
    if segwit {
        lemma_stacks_extend(b, extra, pos, count);
        lemma_stacks_advance(b, pos, count);
    }
}

/// A transaction that decodes from `b` decodes from `b` followed by any
/// other bytes, and to the same transaction.
pub proof fn lemma_decode_ignores_suffix(b: Seq<u8>, extra: Seq<u8>)
    requires
        parse_transaction(b) is Some,
    ensures
        parse_transaction(b + extra) == parse_transaction(b),
{
    let long = b + extra;
    let segwit = has_witness_marker(b);
    let start: int = if segwit { 6 } else { 4 };
    match read_input_section(b, start) {
        Some((inputs, at_outputs)) => {
            // the count of the inputs takes at least one byte
            assert(at_outputs >= start + 1 && at_outputs <= b.len()) by {
                lemma_input_section_advances(b, start);
            }
            assert(b.len() >= 6);
            assert(long[4] == b[4] && long[5] == b[5]);
            assert(has_witness_marker(long) == segwit);
            assert(long.subrange(0, 4) =~= b.subrange(0, 4));
            lemma_input_section_extends(b, extra, start);
            match read_output_section(b, at_outputs) {
                Some((outputs, at_witness)) => {
                    lemma_output_section_extends(b, extra, at_outputs);
                    lemma_witness_section_extends(b, extra, at_witness, segwit, inputs.len());
                    match read_witness_section(b, at_witness, segwit, inputs.len()) {
                        Some((stacks, at_lock)) => {
                            assert(long.subrange(at_lock, at_lock + 4) =~= b.subrange(
                                at_lock,
                                at_lock + 4,
                            ));
                        },
                        None => {},
                    }
                },
                None => {},
            }
        },
        None => {},
    }
}

/// An inputs section ends behind its count and within the buffer.
proof fn lemma_input_section_advances(b: Seq<u8>, pos: int)
    requires
        read_input_section(b, pos) is Some,
        pos >= 0,
    ensures
        match read_input_section(b, pos) {
            Some((inputs, end)) => pos + 1 <= end <= b.len(),
            None => true,
        },
{
    match read_compact(b, pos) {
        Some((n, p)) => {
            lemma_inputs_advance(b, p, n);
        },
        None => {},
    }
}

/// Reading inputs never moves backwards nor past the end of the buffer.
proof fn lemma_inputs_advance(b: Seq<u8>, pos: int, count: nat)
    requires
        read_inputs(b, pos, count) is Some,
        0 <= pos <= b.len(),
    ensures
        match read_inputs(b, pos, count) {
            Some((inputs, end)) => pos <= end <= b.len(),
            None => true,
        },
    decreases count,
{
    if count > 0 {
        lemma_inputs_advance(b, pos, (count - 1) as nat);
    }
}

/// Reading stacks never moves backwards.
proof fn lemma_stacks_advance(b: Seq<u8>, pos: int, count: nat)
    requires
        read_stacks(b, pos, count) is Some,
    ensures
        match read_stacks(b, pos, count) {
            Some((stacks, end)) => end >= pos,
            None => true,
        },
    decreases count,
{
    if count > 0 {
        lemma_stacks_advance(b, pos, (count - 1) as nat);
        match read_stacks(b, pos, (count - 1) as nat) {
            Some((stacks, p)) => {
                match read_compact(b, p) {
                    Some((n, q)) => {
                        lemma_blobs_advance(b, q, n);
                    },
                    None => {},
                }
            },
            None => {},
        }
    }
}

/// Reading blobs never moves backwards.
proof fn lemma_blobs_advance(b: Seq<u8>, pos: int, count: nat)
    requires
        read_blobs(b, pos, count) is Some,
    ensures
        match read_blobs(b, pos, count) {
            Some((items, end)) => end >= pos,
            None => true,
        },
    decreases count,
{
    if count > 0 {
        lemma_blobs_advance(b, pos, (count - 1) as nat);
    }
}

} // verus!
