//! The transaction wire format: decoding a raw buffer into inputs, outputs
//! and witness stacks, and encoding them again.
//!
//! Layout: a 4-byte version; for a transaction that carries witness data the
//! two bytes `00 01`; the number of inputs; each input (32-byte previous
//! transaction id, 4-byte output index, length-prefixed unlocking script,
//! 4-byte sequence number); the number of outputs; each output (8-byte
//! value, length-prefixed locking script); for a transaction that carries
//! witness data one stack per input (the number of items, then each item
//! behind its length); a 4-byte lock time. Fixed-width integers are
//! little-endian; counts and lengths are compact sizes of 1, 3, 5 or 9
//! bytes.

use vstd::prelude::*;
use crate::bytes::{append_bytes, append_le, copy_range, items_view, le_bytes, le_value, read_le};
use crate::bytes::{lemma_byte_range_values, lemma_le_value_bound};

verus! {

/// Why a raw transaction could not be used.
#[derive(Clone, Copy, Debug, PartialEq, Eq, Structural)]
pub enum TxError {
    /// A field would read past the end of the buffer.
    MalformedEncoding,
    /// An input refers to an output position that the transaction lacks.
    OutputOutOfRange,
    /// A witness program of a length that no recognised script has.
    UnsupportedScript,
}

/// The text that describes an error.
pub open spec fn error_text(error: TxError) -> Seq<char> {
    match error {
        TxError::MalformedEncoding => "Malformed transaction encoding"@,
        TxError::OutputOutOfRange => "Output index out of range"@,
        TxError::UnsupportedScript => "Invalid witness program length"@,
    }
}

impl TxError {
    /// A short description of the error.
    pub fn message(&self) -> (text: &'static str)
        ensures
            text@ == error_text(*self),
    {
        match self {
            TxError::MalformedEncoding => "Malformed transaction encoding",
            TxError::OutputOutOfRange => "Output index out of range",
            TxError::UnsupportedScript => "Invalid witness program length",
        }
    }
}

/// An input of a transaction.
#[derive(Clone, Debug, PartialEq, Eq)]
pub struct TxInput {
    /// Id of the transaction whose output is spent.
    pub prev_txid: [u8; 32],
    /// Position of the spent output.
    pub prev_index: u32,
    /// The unlocking script.
    pub script_sig: Vec<u8>,
    /// The sequence number.
    pub sequence: u32,
    /// The witness stack; empty where the input carries none.
    pub witness: Vec<Vec<u8>>,
}

/// An output of a transaction.
#[derive(Clone, Debug, PartialEq, Eq)]
pub struct TxOutput {
    /// The amount.
    pub value: u64,
    /// The locking script.
    pub script_pubkey: Vec<u8>,
}

/// A decoded transaction.
#[derive(Clone, Debug, PartialEq, Eq)]
pub struct Transaction {
    /// The version field.
    pub version: u32,
    /// Whether the encoding carries the witness marker and witness stacks.
    pub segwit: bool,
    /// The inputs, in order.
    pub inputs: Vec<TxInput>,
    /// The outputs, in order.
    pub outputs: Vec<TxOutput>,
    /// The lock time field.
    pub lock_time: u32,
}

/// Mathematical model of an input.
pub struct InputModel {
    pub prev_txid: Seq<u8>,
    pub prev_index: u32,
    pub script_sig: Seq<u8>,
    pub sequence: u32,
    pub witness: Seq<Seq<u8>>,
}

/// Mathematical model of an output.
pub struct OutputModel {
    pub value: u64,
    pub script_pubkey: Seq<u8>,
}

/// Mathematical model of a transaction.
pub struct TxModel {
    pub version: u32,
    pub segwit: bool,
    pub inputs: Seq<InputModel>,
    pub outputs: Seq<OutputModel>,
    pub lock_time: u32,
}

/// The models of a list of inputs.
pub open spec fn inputs_view(inputs: Vec<TxInput>) -> Seq<InputModel> {
    Seq::new(inputs@.len(), |i: int| inputs@[i]@)
}

/// The models of a list of outputs.
pub open spec fn outputs_view(outputs: Vec<TxOutput>) -> Seq<OutputModel> {
    Seq::new(outputs@.len(), |i: int| outputs@[i]@)
}

impl View for TxInput {
    type V = InputModel;

    open spec fn view(&self) -> InputModel {
        InputModel {
            prev_txid: self.prev_txid@,
            prev_index: self.prev_index,
            script_sig: self.script_sig@,
            sequence: self.sequence,
            witness: items_view(self.witness),
        }
    }
}

impl View for TxOutput {
    type V = OutputModel;

    open spec fn view(&self) -> OutputModel {
        OutputModel { value: self.value, script_pubkey: self.script_pubkey@ }
    }
}

impl View for Transaction {
    type V = TxModel;

    open spec fn view(&self) -> TxModel {
        TxModel {
            version: self.version,
            segwit: self.segwit,
            inputs: inputs_view(self.inputs),
            outputs: outputs_view(self.outputs),
            lock_time: self.lock_time,
        }
    }
}

/// Reads a little-endian integer of `width` bytes at `pos`: the number and
/// the position behind it.
pub open spec fn read_uint(b: Seq<u8>, pos: int, width: int) -> Option<(nat, int)> {
    if 0 <= pos && pos + width <= b.len() {
        Some((le_value(b.subrange(pos, pos + width)), pos + width))
    } else {
        None
    }
}

/// Reads a compact size at `pos`: one byte below `0xfd`, or a tag of `0xfd`,
/// `0xfe`, `0xff` followed by 2, 4 or 8 little-endian bytes.
pub open spec fn read_compact(b: Seq<u8>, pos: int) -> Option<(nat, int)> {
    if 0 <= pos < b.len() {
        let tag = b[pos];
        if tag < 0xfd {
            Some((tag as nat, pos + 1))
        } else if tag == 0xfd {
            read_uint(b, pos + 1, 2)
        } else if tag == 0xfe {
            read_uint(b, pos + 1, 4)
        } else {
            read_uint(b, pos + 1, 8)
        }
    } else {
        None
    }
}

/// Reads a run of bytes behind its compact-size length.
pub open spec fn read_blob(b: Seq<u8>, pos: int) -> Option<(Seq<u8>, int)> {
    match read_compact(b, pos) {
        Some((n, p)) => if p + n <= b.len() {
            Some((b.subrange(p, p + n), p + n))
        } else {
            None
        },
        None => None,
    }
}

/// Reads `count` blobs, one behind the other.
pub open spec fn read_blobs(b: Seq<u8>, pos: int, count: nat) -> Option<(Seq<Seq<u8>>, int)>
    decreases count,
{
    if count == 0 {
        Some((Seq::empty(), pos))
    } else {
        match read_blobs(b, pos, (count - 1) as nat) {
            Some((items, p)) => match read_blob(b, p) {
                Some((item, q)) => Some((items.push(item), q)),
                None => None,
            },
            None => None,
        }
    }
}

/// Reads a witness stack: the number of items, then the items.
pub open spec fn read_stack(b: Seq<u8>, pos: int) -> Option<(Seq<Seq<u8>>, int)> {
    match read_compact(b, pos) {
        Some((n, p)) => read_blobs(b, p, n),
        None => None,
    }
}

/// Reads `count` witness stacks, one behind the other.
pub open spec fn read_stacks(b: Seq<u8>, pos: int, count: nat) -> Option<
    (Seq<Seq<Seq<u8>>>, int),
>
    decreases count,
{
    if count == 0 {
        Some((Seq::empty(), pos))
    } else {
        match read_stacks(b, pos, (count - 1) as nat) {
            Some((stacks, p)) => match read_stack(b, p) {
                Some((stack, q)) => Some((stacks.push(stack), q)),
                None => None,
            },
            None => None,
        }
    }
}

/// Reads an input, without its witness stack.
pub open spec fn read_input(b: Seq<u8>, pos: int) -> Option<(InputModel, int)> {
    if 0 <= pos && pos + 36 <= b.len() {
        match read_blob(b, pos + 36) {
            Some((script, p)) => if p + 4 <= b.len() {
                Some(
                    (
                        InputModel {
                            prev_txid: b.subrange(pos, pos + 32),
                            prev_index: le_value(b.subrange(pos + 32, pos + 36)) as u32,
                            script_sig: script,
                            sequence: le_value(b.subrange(p, p + 4)) as u32,
                            witness: Seq::empty(),
                        },
                        p + 4,
                    ),
                )
            } else {
                None
            },
            None => None,
        }
    } else {
        None
    }
}

/// Reads `count` inputs, one behind the other.
pub open spec fn read_inputs(b: Seq<u8>, pos: int, count: nat) -> Option<(Seq<InputModel>, int)>
    decreases count,
{
    if count == 0 {
        Some((Seq::empty(), pos))
    } else {
        match read_inputs(b, pos, (count - 1) as nat) {
            Some((inputs, p)) => match read_input(b, p) {
                Some((input, q)) => Some((inputs.push(input), q)),
                None => None,
            },
            None => None,
        }
    }
}

/// Reads an output.
pub open spec fn read_output(b: Seq<u8>, pos: int) -> Option<(OutputModel, int)> {
    if 0 <= pos && pos + 8 <= b.len() {
        match read_blob(b, pos + 8) {
            Some((script, p)) => Some(
                (
                    OutputModel {
                        value: le_value(b.subrange(pos, pos + 8)) as u64,
                        script_pubkey: script,
                    },
                    p,
                ),
            ),
            None => None,
        }
    } else {
        None
    }
}

/// Reads `count` outputs, one behind the other.
pub open spec fn read_outputs(b: Seq<u8>, pos: int, count: nat) -> Option<
    (Seq<OutputModel>, int),
>
    decreases count,
{
    if count == 0 {
        Some((Seq::empty(), pos))
    } else {
        match read_outputs(b, pos, (count - 1) as nat) {
            Some((outputs, p)) => match read_output(b, p) {
                Some((output, q)) => Some((outputs.push(output), q)),
                None => None,
            },
            None => None,
        }
    }
}

/// Whether the bytes behind the version are the witness marker `00 01`.
pub open spec fn has_witness_marker(b: Seq<u8>) -> bool {
    b.len() >= 6 && b[4] == 0 && b[5] == 1
}

/// `inputs` with the stacks of `stacks` attached, position by position.
pub open spec fn with_witness(inputs: Seq<InputModel>, stacks: Seq<Seq<Seq<u8>>>) -> Seq<
    InputModel,
> {
    Seq::new(
        inputs.len(),
        |i: int|
            InputModel {
                prev_txid: inputs[i].prev_txid,
                prev_index: inputs[i].prev_index,
                script_sig: inputs[i].script_sig,
                sequence: inputs[i].sequence,
                witness: stacks[i],
            },
    )
}

/// The inputs section: the count, then the inputs.
pub open spec fn read_input_section(b: Seq<u8>, pos: int) -> Option<(Seq<InputModel>, int)> {
    match read_compact(b, pos) {
        Some((n, p)) => read_inputs(b, p, n),
        None => None,
    }
}

/// The outputs section: the count, then the outputs.
pub open spec fn read_output_section(b: Seq<u8>, pos: int) -> Option<(Seq<OutputModel>, int)> {
    match read_compact(b, pos) {
        Some((n, p)) => read_outputs(b, p, n),
        None => None,
    }
}

/// What follows the outputs: one witness stack per input where the marker
/// is set, and nothing, which leaves every stack empty, where it is not.
pub open spec fn read_witness_section(b: Seq<u8>, pos: int, segwit: bool, count: nat) -> Option<
    (Seq<Seq<Seq<u8>>>, int),
> {
    if segwit {
        read_stacks(b, pos, count)
    } else {
        Some((Seq::new(count, |i: int| Seq::<Seq<u8>>::empty()), pos))
    }
}

/// The transaction that the front of `b` encodes, or `None` where a field
/// would read past the end of `b`. Bytes behind the lock time are ignored.
pub open spec fn parse_transaction(b: Seq<u8>) -> Option<TxModel> {
    if b.len() < 4 {
        None
    } else {
        let segwit = has_witness_marker(b);
        let start: int = if segwit { 6 } else { 4 };
        match read_input_section(b, start) {
            Some((inputs, at_outputs)) => match read_output_section(b, at_outputs) {
                Some((outputs, at_witness)) => {
                    match read_witness_section(b, at_witness, segwit, inputs.len()) {
                        Some((stacks, at_lock)) => if at_lock + 4 <= b.len() {
                            Some(
                                TxModel {
                                    version: le_value(b.subrange(0, 4)) as u32,
                                    segwit: segwit,
                                    inputs: with_witness(inputs, stacks),
                                    outputs: outputs,
                                    lock_time: le_value(b.subrange(at_lock, at_lock + 4)) as u32,
                                },
                            )
                        } else {
                            None
                        },
                        None => None,
                    }
                },
                None => None,
            },
            None => None,
        }
    }
}

/// Once a run of blobs cannot be read, no longer run can.
proof fn lemma_read_blobs_fails(b: Seq<u8>, pos: int, k: nat, n: nat)
    requires
        k <= n,
        read_blobs(b, pos, k) is None,
    ensures
        read_blobs(b, pos, n) is None,
    decreases n,
{
    if k < n {
        lemma_read_blobs_fails(b, pos, k, (n - 1) as nat);
    }
}

/// Once a run of stacks cannot be read, no longer run can.
proof fn lemma_read_stacks_fails(b: Seq<u8>, pos: int, k: nat, n: nat)
    requires
        k <= n,
        read_stacks(b, pos, k) is None,
    ensures
        read_stacks(b, pos, n) is None,
    decreases n,
{
    if k < n {
        lemma_read_stacks_fails(b, pos, k, (n - 1) as nat);
    }
}

/// Once a run of inputs cannot be read, no longer run can.
proof fn lemma_read_inputs_fails(b: Seq<u8>, pos: int, k: nat, n: nat)
    requires
        k <= n,
        read_inputs(b, pos, k) is None,
    ensures
        read_inputs(b, pos, n) is None,
    decreases n,
{
    if k < n {
        lemma_read_inputs_fails(b, pos, k, (n - 1) as nat);
    }
}

/// Once a run of outputs cannot be read, no longer run can.
proof fn lemma_read_outputs_fails(b: Seq<u8>, pos: int, k: nat, n: nat)
    requires
        k <= n,
        read_outputs(b, pos, k) is None,
    ensures
        read_outputs(b, pos, n) is None,
    decreases n,
{
    if k < n {
        lemma_read_outputs_fails(b, pos, k, (n - 1) as nat);
    }
}

/// Decodes the compact size at `pos`: the number and the position behind
/// it, or `None` where it is cut short.
pub fn decode_compact(b: &[u8], pos: usize) -> (r: Option<(u64, usize)>)
    ensures
        match (read_compact(b@, pos as int), r) {
            (Some((n, p)), Some((value, next))) => value == n && next == p,
            (None, None) => true,
            _ => false,
        },
{
    if pos >= b.len() {
        return None;
    }
    let tag: u8 = b[pos];
    if tag < 0xfd {
        return Some((tag as u64, pos + 1));
    }
    let width: usize = if tag == 0xfd {
        2
    } else if tag == 0xfe {
        4
    } else {
        8
    };
    if b.len() - (pos + 1) < width {
        return None;
    }
    let n: u64 = read_le(b, pos + 1, width);
    Some((n, pos + 1 + width))
}

/// Decodes the length-prefixed run of bytes at `pos`.
pub fn decode_blob(b: &[u8], pos: usize) -> (r: Option<(Vec<u8>, usize)>)
    ensures
        match (read_blob(b@, pos as int), r) {
            (Some((bytes, p)), Some((blob, next))) => blob@ == bytes && next == p,
            (None, None) => true,
            _ => false,
        },
{
    match decode_compact(b, pos) {
        None => None,
        Some((n, p)) => {
            if n > (b.len() - p) as u64 {
                return None;
            }
            let end: usize = p + n as usize;
            Some((copy_range(b, p, end), end))
        },
    }
}

/// Decodes the witness stack at `pos`.
pub fn decode_stack(b: &[u8], pos: usize) -> (r: Option<(Vec<Vec<u8>>, usize)>)
    ensures
        match (read_stack(b@, pos as int), r) {
            (Some((items, p)), Some((stack, next))) => items_view(stack) == items && next == p,
            (None, None) => true,
            _ => false,
        },
{
    let (count, start) = match decode_compact(b, pos) {
        None => { return None; },
        Some(head) => head,
    };
    let mut items: Vec<Vec<u8>> = Vec::new();
    let mut at: usize = start;
    let mut i: u64 = 0;
    assert(items_view(items) =~= Seq::<Seq<u8>>::empty());
    assert(read_compact(b@, pos as int) == Some((count as nat, start as int)));
    while i < count
        invariant
            i <= count,
            at <= b.len(),
            read_compact(b@, pos as int) == Some((count as nat, start as int)),
            read_blobs(b@, start as int, i as nat) == Some((items_view(items), at as int)),
        decreases count - i,
    {
        match decode_blob(b, at) {
            None => {
                proof {
                    assert(read_blobs(b@, start as int, (i + 1) as nat) is None);
                    lemma_read_blobs_fails(b@, start as int, (i + 1) as nat, count as nat);
                }
                return None;
            },
            Some((item, next)) => {
                let ghost before = items_view(items);
                let ghost bytes = item@;
                items.push(item);
                assert(items_view(items) =~= before.push(bytes));
                at = next;
                i += 1;
            },
        }
    }
    Some((items, at))
}

/// Decodes the input at `pos`; its witness stack is left empty.
pub fn decode_input(b: &[u8], pos: usize) -> (r: Option<(TxInput, usize)>)
    ensures
        match (read_input(b@, pos as int), r) {
            (Some((model, p)), Some((input, next))) => input@ == model && next == p,
            (None, None) => true,
            _ => false,
        },
{
    if pos > b.len() || b.len() - pos < 36 {
        return None;
    }
    let mut prev_txid = [0u8; 32];
    let mut k: usize = 0;
    while k < 32
        invariant
            k <= 32,
            pos + 36 <= b.len(),
            forall|j: int| 0 <= j < k ==> prev_txid@[j] == b@[pos + j],
        decreases 32 - k,
    {
        prev_txid[k] = b[pos + k];
        k += 1;
    }
    assert(prev_txid@ =~= b@.subrange(pos as int, pos + 32));
    let index: u64 = read_le(b, pos + 32, 4);
    let (script_sig, p) = match decode_blob(b, pos + 36) {
        None => { return None; },
        Some(blob) => blob,
    };
    if b.len() - p < 4 {
        return None;
    }
    let sequence: u64 = read_le(b, p, 4);
    proof {
        lemma_le_value_bound(b@.subrange(pos + 32, pos + 36));
        lemma_le_value_bound(b@.subrange(p as int, p + 4));
        lemma_byte_range_values();
    }
    let witness: Vec<Vec<u8>> = Vec::new();
    assert(items_view(witness) =~= Seq::<Seq<u8>>::empty());
    Some(
        (
            TxInput {
                prev_txid,
                prev_index: index as u32,
                script_sig,
                sequence: sequence as u32,
                witness,
            },
            p + 4,
        ),
    )
}

/// Decodes the output at `pos`.
pub fn decode_output(b: &[u8], pos: usize) -> (r: Option<(TxOutput, usize)>)
    ensures
        match (read_output(b@, pos as int), r) {
            (Some((model, p)), Some((output, next))) => output@ == model && next == p,
            (None, None) => true,
            _ => false,
        },
{
    if pos > b.len() || b.len() - pos < 8 {
        return None;
    }
    let value: u64 = read_le(b, pos, 8);
    match decode_blob(b, pos + 8) {
        None => None,
        Some((script_pubkey, p)) => Some((TxOutput { value, script_pubkey }, p)),
    }
}

/// Inputs that were read without a witness section have empty stacks.
proof fn lemma_read_inputs_bare(b: Seq<u8>, pos: int, n: nat, inputs: Seq<InputModel>, end: int)
    requires
        read_inputs(b, pos, n) == Some((inputs, end)),
    ensures
        inputs.len() == n,
        forall|i: int| 0 <= i < n ==> (#[trigger] inputs[i]).witness == Seq::<Seq<u8>>::empty(),
    decreases n,
{
    if n > 0 {
        match read_inputs(b, pos, (n - 1) as nat) {
            Some((front, p)) => {
                lemma_read_inputs_bare(b, pos, (n - 1) as nat, front, p);
            },
            None => {},
        }
    }
}

/// A run of stacks that was read has as many stacks as were asked for.
proof fn lemma_read_stacks_len(b: Seq<u8>, pos: int, n: nat, stacks: Seq<Seq<Seq<u8>>>, end: int)
    requires
        read_stacks(b, pos, n) == Some((stacks, end)),
    ensures
        stacks.len() == n,
    decreases n,
{
    if n > 0 {
        match read_stacks(b, pos, (n - 1) as nat) {
            Some((front, p)) => {
                lemma_read_stacks_len(b, pos, (n - 1) as nat, front, p);
            },
            None => {},
        }
    }
}

/// Decodes the inputs section at `pos`: the count, then the inputs.
pub fn decode_inputs(b: &[u8], pos: usize) -> (r: Option<(Vec<TxInput>, usize)>)
    ensures
        match (read_input_section(b@, pos as int), r) {
            (Some((models, p)), Some((inputs, next))) => inputs_view(inputs) == models && next
                == p,
            (None, None) => true,
            _ => false,
        },
{
    let (count, start) = match decode_compact(b, pos) {
        None => { return None; },
        Some(head) => head,
    };
    let mut inputs: Vec<TxInput> = Vec::new();
    let mut at: usize = start;
    let mut i: u64 = 0;
    assert(inputs_view(inputs) =~= Seq::<InputModel>::empty());
    while i < count
        invariant
            i <= count,
            read_compact(b@, pos as int) == Some((count as nat, start as int)),
            read_inputs(b@, start as int, i as nat) == Some((inputs_view(inputs), at as int)),
        decreases count - i,
    {
        match decode_input(b, at) {
            None => {
                proof {
                    assert(read_inputs(b@, start as int, (i + 1) as nat) is None);
                    lemma_read_inputs_fails(b@, start as int, (i + 1) as nat, count as nat);
                }
                return None;
            },
            Some((input, next)) => {
                let ghost before = inputs_view(inputs);
                let ghost model = input@;
                inputs.push(input);
                assert(inputs_view(inputs) =~= before.push(model));
                at = next;
                i += 1;
            },
        }
    }
    Some((inputs, at))
}

/// Decodes the outputs section at `pos`: the count, then the outputs.
pub fn decode_outputs(b: &[u8], pos: usize) -> (r: Option<(Vec<TxOutput>, usize)>)
    ensures
        match (read_output_section(b@, pos as int), r) {
            (Some((models, p)), Some((outputs, next))) => outputs_view(outputs) == models
                && next == p,
            (None, None) => true,
            _ => false,
        },
{
    let (count, start) = match decode_compact(b, pos) {
        None => { return None; },
        Some(head) => head,
    };
    let mut outputs: Vec<TxOutput> = Vec::new();
    let mut at: usize = start;
    let mut i: u64 = 0;
    assert(outputs_view(outputs) =~= Seq::<OutputModel>::empty());
    while i < count
        invariant
            i <= count,
            read_compact(b@, pos as int) == Some((count as nat, start as int)),
            read_outputs(b@, start as int, i as nat) == Some((outputs_view(outputs), at as int)),
        decreases count - i,
    {
        match decode_output(b, at) {
            None => {
                proof {
                    assert(read_outputs(b@, start as int, (i + 1) as nat) is None);
                    lemma_read_outputs_fails(b@, start as int, (i + 1) as nat, count as nat);
                }
                return None;
            },
            Some((output, next)) => {
                let ghost before = outputs_view(outputs);
                let ghost model = output@;
                outputs.push(output);
                assert(outputs_view(outputs) =~= before.push(model));
                at = next;
                i += 1;
            },
        }
    }
    Some((outputs, at))
}

/// Decodes one witness stack per input at `pos` and attaches each to its
/// input. Where a stack is cut short the result is `None`, and the inputs
/// are left with the stacks read so far.
pub fn decode_witness(b: &[u8], pos: usize, inputs: &mut Vec<TxInput>) -> (r: Option<usize>)
    ensures
        final(inputs)@.len() == old(inputs)@.len(),
        match (read_stacks(b@, pos as int, old(inputs)@.len()), r) {
            (Some((stacks, p)), Some(next)) => inputs_view(*final(inputs)) == with_witness(
                inputs_view(*old(inputs)),
                stacks,
            ) && next == p,
            (None, None) => true,
            _ => false,
        },
{
    let ghost before = inputs_view(*inputs);
    let ghost total = inputs@.len();
    let mut at: usize = pos;
    let mut i: usize = 0;
    let ghost mut stacks: Seq<Seq<Seq<u8>>> = Seq::empty();
    while i < inputs.len()
        invariant
            i <= inputs@.len(),
            inputs@.len() == total,
            total == old(inputs)@.len(),
            before == inputs_view(*old(inputs)),
            stacks.len() == i,
            read_stacks(b@, pos as int, i as nat) == Some((stacks, at as int)),
            forall|k: int|
                0 <= k < i ==> #[trigger] inputs_view(*inputs)[k] == with_witness(
                    before,
                    stacks,
                )[k],
            forall|k: int| i <= k < total ==> #[trigger] inputs_view(*inputs)[k] == before[k],
            before.len() == total,
        decreases inputs@.len() - i,
    {
        match decode_stack(b, at) {
            None => {
                proof {
                    assert(read_stacks(b@, pos as int, (i + 1) as nat) is None);
                    lemma_read_stacks_fails(b@, pos as int, (i + 1) as nat, total);
                }
                return None;
            },
            Some((stack, next)) => {
                let ghost prev = inputs_view(*inputs);
                let ghost items = items_view(stack);
                inputs[i].witness = stack;
                proof {
                    let grown = stacks.push(items);
                    assert forall|k: int| 0 <= k < i + 1 implies #[trigger] inputs_view(
                        *inputs,
                    )[k] == with_witness(before, grown)[k] by {
                        if k < i {
                            assert(inputs_view(*inputs)[k] == prev[k]);
                            assert(prev[k] == with_witness(before, stacks)[k]);
                        } else {
                            assert(prev[k] == before[k]);
                        }
                    }
                    assert forall|k: int| i + 1 <= k < total implies #[trigger] inputs_view(
                        *inputs,
                    )[k] == before[k] by {
                        assert(inputs_view(*inputs)[k] == prev[k]);
                    }
                    stacks = grown;
                }
                at = next;
                i += 1;
            },
        }
    }
    assert(inputs_view(*inputs) =~= with_witness(before, stacks));
    Some(at)
}

/// Decodes the transaction at the front of `b`.
///
/// Fails with [`TxError::MalformedEncoding`] exactly where a field would
/// read past the end of `b`. Bytes behind the lock time are ignored.
pub fn decode_transaction(b: &[u8]) -> (r: Result<Transaction, TxError>)
    ensures
        match parse_transaction(b@) {
            Some(model) => r is Ok && r->Ok_0@ == model,
            None => r == Err::<Transaction, TxError>(TxError::MalformedEncoding),
        },
{
    if b.len() < 4 {
        return Err(TxError::MalformedEncoding);
    }
    let version: u64 = read_le(b, 0, 4);
    let segwit: bool = b.len() >= 6 && b[4] == 0 && b[5] == 1;
    let start: usize = if segwit {
        6
    } else {
        4
    };
    let (mut inputs, at_outputs) = match decode_inputs(b, start) {
        None => { return Err(TxError::MalformedEncoding); },
        Some(section) => section,
    };
    let (outputs, at_witness) = match decode_outputs(b, at_outputs) {
        None => { return Err(TxError::MalformedEncoding); },
        Some(section) => section,
    };
    let ghost bare = inputs_view(inputs);
    proof {
        match read_compact(b@, start as int) {
            Some((n, p)) => {
                lemma_read_inputs_bare(b@, p, n, bare, at_outputs as int);
            },
            None => {},
        }
    }
    let at_lock: usize = if segwit {
        match decode_witness(b, at_witness, &mut inputs) {
            None => { return Err(TxError::MalformedEncoding); },
            Some(next) => next,
        }
    } else {
        assert(inputs_view(inputs) =~= with_witness(
            bare,
            Seq::new(bare.len(), |i: int| Seq::<Seq<u8>>::empty()),
        ));
        at_witness
    };
    proof {
        if segwit {
            match read_stacks(b@, at_witness as int, bare.len()) {
                Some((stacks, p)) => {
                    lemma_read_stacks_len(b@, at_witness as int, bare.len(), stacks, p);
                },
                None => {},
            }
        }
    }
    if at_lock > b.len() || b.len() - at_lock < 4 {
        return Err(TxError::MalformedEncoding);
    }
    let lock_time: u64 = read_le(b, at_lock, 4);
    proof {
        lemma_le_value_bound(b@.subrange(0, 4));
        lemma_le_value_bound(b@.subrange(at_lock as int, at_lock + 4));
        lemma_byte_range_values();
    }
    Ok(
        Transaction {
            version: version as u32,
            segwit,
            inputs,
            outputs,
            lock_time: lock_time as u32,
        },
    )
}

/// The output at position `index` of `outputs`, or
/// [`TxError::OutputOutOfRange`] where there is none.
pub fn output_at(outputs: &Vec<TxOutput>, index: usize) -> (r: Result<&TxOutput, TxError>)
    ensures
        index < outputs@.len() ==> r == Ok::<&TxOutput, TxError>(&outputs@[index as int]),
        index >= outputs@.len() ==> r == Err::<&TxOutput, TxError>(TxError::OutputOutOfRange),
{
    if index < outputs.len() {
        Ok(&outputs[index])
    } else {
        Err(TxError::OutputOutOfRange)
    }
}

impl Transaction {
    /// The output at position `index`, or [`TxError::OutputOutOfRange`]
    /// where the transaction has no such output.
    pub fn output_at(&self, index: usize) -> (r: Result<&TxOutput, TxError>)
        ensures
            index < self.outputs@.len() ==> r == Ok::<&TxOutput, TxError>(
                &self.outputs@[index as int],
            ),
            index >= self.outputs@.len() ==> r == Err::<&TxOutput, TxError>(
                TxError::OutputOutOfRange,
            ),
    {
        output_at(&self.outputs, index)
    }

    /// The input at position `index`, or `None` where the transaction has
    /// no such input.
    pub fn input_at(&self, index: usize) -> (r: Option<&TxInput>)
        ensures
            index < self.inputs@.len() ==> r == Some(&self.inputs@[index as int]),
            index >= self.inputs@.len() ==> r is None,
    {
        if index < self.inputs.len() {
            Some(&self.inputs[index])
        } else {
            None
        }
    }
}

/// The compact size of `n`: one byte below `0xfd`, else the shortest of
/// the tagged forms of 2, 4 or 8 bytes.
pub open spec fn compact(n: nat) -> Seq<u8> {
    if n < 0xfd {
        seq![n as u8]
    } else if n <= 0xffff {
        seq![0xfdu8] + le_bytes(n, 2)
    } else if n <= 0xffff_ffff {
        seq![0xfeu8] + le_bytes(n, 4)
    } else {
        seq![0xffu8] + le_bytes(n, 8)
    }
}

/// `bytes` behind its compact-size length.
pub open spec fn blob(bytes: Seq<u8>) -> Seq<u8> {
    compact(bytes.len()) + bytes
}

/// The blobs of `items`, one behind the other.
pub open spec fn blobs(items: Seq<Seq<u8>>) -> Seq<u8>
    decreases items.len(),
{
    if items.len() == 0 {
        Seq::empty()
    } else {
        blobs(items.drop_last()) + blob(items.last())
    }
}

/// The encoding of a witness stack: the number of items, then the items.
pub open spec fn stack_bytes(items: Seq<Seq<u8>>) -> Seq<u8> {
    compact(items.len()) + blobs(items)
}

/// The encoding of an input, without its witness stack.
pub open spec fn input_bytes(input: InputModel) -> Seq<u8> {
    input.prev_txid + le_bytes(input.prev_index as nat, 4) + blob(input.script_sig) + le_bytes(
        input.sequence as nat,
        4,
    )
}

/// The encodings of `inputs`, one behind the other.
pub open spec fn inputs_bytes(inputs: Seq<InputModel>) -> Seq<u8>
    decreases inputs.len(),
{
    if inputs.len() == 0 {
        Seq::empty()
    } else {
        inputs_bytes(inputs.drop_last()) + input_bytes(inputs.last())
    }
}

/// The encoding of an output.
pub open spec fn output_bytes(output: OutputModel) -> Seq<u8> {
    le_bytes(output.value as nat, 8) + blob(output.script_pubkey)
}

/// The encodings of `outputs`, one behind the other.
pub open spec fn outputs_bytes(outputs: Seq<OutputModel>) -> Seq<u8>
    decreases outputs.len(),
{
    if outputs.len() == 0 {
        Seq::empty()
    } else {
        outputs_bytes(outputs.drop_last()) + output_bytes(outputs.last())
    }
}

/// The encodings of the witness stacks of `inputs`, one behind the other.
pub open spec fn witness_bytes(inputs: Seq<InputModel>) -> Seq<u8>
    decreases inputs.len(),
{
    if inputs.len() == 0 {
        Seq::empty()
    } else {
        witness_bytes(inputs.drop_last()) + stack_bytes(inputs.last().witness)
    }
}

/// The encoding of a transaction. The witness stacks are written only
/// where `segwit` is set.
pub open spec fn serialize(tx: TxModel) -> Seq<u8> {
    le_bytes(tx.version as nat, 4) + (if tx.segwit {
        seq![0x00u8, 0x01u8]
    } else {
        Seq::empty()
    }) + compact(tx.inputs.len()) + inputs_bytes(tx.inputs) + compact(tx.outputs.len())
        + outputs_bytes(tx.outputs) + (if tx.segwit {
        witness_bytes(tx.inputs)
    } else {
        Seq::empty()
    }) + le_bytes(tx.lock_time as nat, 4)
}

/// Appends the compact size of `n` to `dst`.
pub fn encode_compact(dst: &mut Vec<u8>, n: u64)
    ensures
        final(dst)@ == old(dst)@ + compact(n as nat),
{
    if n < 0xfd {
        dst.push(n as u8);
        assert(dst@ =~= old(dst)@ + compact(n as nat));
    } else if n <= 0xffff {
        dst.push(0xfd);
        append_le(dst, n, 2);
        assert(dst@ =~= old(dst)@ + compact(n as nat));
    } else if n <= 0xffff_ffff {
        dst.push(0xfe);
        append_le(dst, n, 4);
        assert(dst@ =~= old(dst)@ + compact(n as nat));
    } else {
        dst.push(0xff);
        append_le(dst, n, 8);
        assert(dst@ =~= old(dst)@ + compact(n as nat));
    }
}

/// Appends `bytes` behind its compact-size length to `dst`.
pub fn encode_blob(dst: &mut Vec<u8>, bytes: &[u8])
    ensures
        final(dst)@ == old(dst)@ + blob(bytes@),
{
    encode_compact(dst, bytes.len() as u64);
    append_bytes(dst, bytes);
    assert(dst@ =~= old(dst)@ + blob(bytes@));
}

/// Appends the encoding of a witness stack to `dst`.
pub fn encode_stack(dst: &mut Vec<u8>, items: &Vec<Vec<u8>>)
    ensures
        final(dst)@ == old(dst)@ + stack_bytes(items_view(*items)),
{
    let ghost all = items_view(*items);
    encode_compact(dst, items.len() as u64);
    let ghost head = dst@;
    let mut i: usize = 0;
    assert(all.subrange(0, 0) =~= Seq::<Seq<u8>>::empty());
    assert(dst@ =~= head + blobs(all.subrange(0, 0)));
    while i < items.len()
        invariant
            i <= items.len(),
            all == items_view(*items),
            dst@ == head + blobs(all.subrange(0, i as int)),
        decreases items.len() - i,
    {
        encode_blob(dst, items[i].as_slice());
        proof {
            let next = all.subrange(0, i + 1);
            assert(next.drop_last() =~= all.subrange(0, i as int));
            assert(next.last() == items@[i as int]@);
            assert(dst@ =~= head + blobs(next));
        }
        i += 1;
    }
    assert(all.subrange(0, i as int) =~= all);
    assert(dst@ =~= old(dst)@ + stack_bytes(all));
}

/// Appends the encoding of `input`, without its witness stack, to `dst`.
pub fn encode_input(dst: &mut Vec<u8>, input: &TxInput)
    ensures
        final(dst)@ == old(dst)@ + input_bytes(input@),
{
    append_bytes(dst, input.prev_txid.as_slice());
    append_le(dst, input.prev_index as u64, 4);
    encode_blob(dst, input.script_sig.as_slice());
    append_le(dst, input.sequence as u64, 4);
    assert(dst@ =~= old(dst)@ + input_bytes(input@));
}

/// Appends the encoding of `output` to `dst`.
pub fn encode_output(dst: &mut Vec<u8>, output: &TxOutput)
    ensures
        final(dst)@ == old(dst)@ + output_bytes(output@),
{
    append_le(dst, output.value, 8);
    encode_blob(dst, output.script_pubkey.as_slice());
    assert(dst@ =~= old(dst)@ + output_bytes(output@));
}

/// Encodes a transaction.
pub fn encode_transaction(tx: &Transaction) -> (bytes: Vec<u8>)
    ensures
        bytes@ == serialize(tx@),
{
    let ghost model = tx@;
    let mut out: Vec<u8> = Vec::new();
    append_le(&mut out, tx.version as u64, 4);
    if tx.segwit {
        out.push(0x00);
        out.push(0x01);
    }
    encode_compact(&mut out, tx.inputs.len() as u64);
    let ghost written_inputs_head = out@;
    assert(written_inputs_head =~= le_bytes(model.version as nat, 4) + (if model.segwit {
        seq![0x00u8, 0x01u8]
    } else {
        Seq::empty()
    }) + compact(model.inputs.len()));
    let mut i: usize = 0;
    assert(model.inputs.subrange(0, 0) =~= Seq::<InputModel>::empty());
    assert(out@ =~= written_inputs_head + inputs_bytes(model.inputs.subrange(0, 0)));
    while i < tx.inputs.len()
        invariant
            i <= tx.inputs.len(),
            model == tx@,
            out@ == written_inputs_head + inputs_bytes(model.inputs.subrange(0, i as int)),
        decreases tx.inputs.len() - i,
    {
        encode_input(&mut out, &tx.inputs[i]);
        proof {
            let next = model.inputs.subrange(0, i + 1);
            assert(next.drop_last() =~= model.inputs.subrange(0, i as int));
            assert(next.last() == tx.inputs@[i as int]@);
            assert(out@ =~= written_inputs_head + inputs_bytes(next));
        }
        i += 1;
    }
    assert(model.inputs.subrange(0, i as int) =~= model.inputs);
    encode_compact(&mut out, tx.outputs.len() as u64);
    let ghost written_outputs_head = out@;
    let mut j: usize = 0;
    assert(model.outputs.subrange(0, 0) =~= Seq::<OutputModel>::empty());
    assert(out@ =~= written_outputs_head + outputs_bytes(model.outputs.subrange(0, 0)));
    while j < tx.outputs.len()
        invariant
            j <= tx.outputs.len(),
            model == tx@,
            out@ == written_outputs_head + outputs_bytes(model.outputs.subrange(0, j as int)),
        decreases tx.outputs.len() - j,
    {
        encode_output(&mut out, &tx.outputs[j]);
        proof {
            let next = model.outputs.subrange(0, j + 1);
            assert(next.drop_last() =~= model.outputs.subrange(0, j as int));
            assert(next.last() == tx.outputs@[j as int]@);
            assert(out@ =~= written_outputs_head + outputs_bytes(next));
        }
        j += 1;
    }
    assert(model.outputs.subrange(0, j as int) =~= model.outputs);
    let ghost written_witness_head = out@;
    if tx.segwit {
        let mut k: usize = 0;
        assert(out@ =~= written_witness_head + witness_bytes(model.inputs.subrange(0, 0)));
        while k < tx.inputs.len()
            invariant
                k <= tx.inputs.len(),
                model == tx@,
                out@ == written_witness_head + witness_bytes(model.inputs.subrange(0, k as int)),
            decreases tx.inputs.len() - k,
        {
            encode_stack(&mut out, &tx.inputs[k].witness);
            proof {
                let next = model.inputs.subrange(0, k + 1);
                assert(next.drop_last() =~= model.inputs.subrange(0, k as int));
                assert(next.last() == tx.inputs@[k as int]@);
                assert(out@ =~= written_witness_head + witness_bytes(next));
            }
            k += 1;
        }
        assert(model.inputs.subrange(0, k as int) =~= model.inputs);
    }
    append_le(&mut out, tx.lock_time as u64, 4);
    assert(out@ =~= serialize(model));
    out
}

} // verus!
