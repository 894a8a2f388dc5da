//! Block assembly: an 80-byte header placeholder followed by
//! length-prefixed transactions, the reward transaction first.

use vstd::prelude::*;
use crate::bytes::{append_bytes, append_le, copy_range, items_view, le_bytes, le_value, read_le};
use crate::bytes::{lemma_byte_range_values, lemma_le_bytes_len, lemma_le_roundtrip, stacks_view};
use crate::codec::{compact, input_bytes, inputs_bytes, output_bytes, outputs_bytes};
use crate::codec::{parse_transaction, serialize, InputModel, OutputModel, TxModel};
use crate::roundtrip::{lemma_decode_ignores_suffix, lemma_decode_inverts_encode, well_formed};
use crate::script::{is_p2pkh_script, lemma_p2pkh_script_recognised, p2pkh_script};

verus! {

/// Number of bytes in a block header.
pub const HEADER_LEN: usize = 80;

/// Number of bytes in a length prefix.
pub const PREFIX_LEN: usize = 8;

/// The witness stacks of a transaction: one stack of items per input.
pub type WitnessBundle = Vec<Vec<Vec<u8>>>;

/// An accepted transaction: its bytes and its witness stacks.
pub type Candidate = (Vec<u8>, WitnessBundle);

/// The serialized bodies of a list of candidates, in order.
pub open spec fn candidate_bodies(candidates: Seq<Candidate>) -> Seq<Seq<u8>> {
    Seq::new(candidates.len(), |i: int| candidate_body(candidates[i].0@, stacks_view(candidates[i].1)))
}

/// `body` behind its length as an 8-byte little-endian integer.
pub open spec fn framed(body: Seq<u8>) -> Seq<u8> {
    le_bytes(body.len(), 8) + body
}

/// The concatenation of the frames of `bodies`, in order.
pub open spec fn frames(bodies: Seq<Seq<u8>>) -> Seq<u8>
    decreases bodies.len(),
{
    if bodies.len() == 0 {
        Seq::empty()
    } else {
        frames(bodies.drop_last()) + framed(bodies.last())
    }
}

/// All items of all stacks, in order, as one list.
pub open spec fn witness_items(stacks: Seq<Seq<Seq<u8>>>) -> Seq<Seq<u8>>
    decreases stacks.len(),
{
    if stacks.len() == 0 {
        Seq::empty()
    } else {
        witness_items(stacks.drop_last()) + stacks.last()
    }
}

/// What a candidate contributes to a block, before its own length prefix:
/// the transaction bytes, then every witness item behind its length.
pub open spec fn candidate_body(tx: Seq<u8>, stacks: Seq<Seq<Seq<u8>>>) -> Seq<u8> {
    tx + frames(witness_items(stacks))
}

/// A header of 80 zero bytes.
pub open spec fn empty_header() -> Seq<u8> {
    Seq::new(80, |i: int| 0u8)
}

/// The bytes of a block: the header placeholder, the framed reward
/// transaction, then the framed body of each candidate in list order.
pub open spec fn block_bytes(coinbase: Seq<u8>, bodies: Seq<Seq<u8>>) -> Seq<u8> {
    empty_header() + frames(seq![coinbase] + bodies)
}

/// Splits a run of frames back into bodies; `None` where a length prefix
/// is cut short or promises more bytes than are left.
pub open spec fn parse_frames(data: Seq<u8>) -> Option<Seq<Seq<u8>>>
    decreases data.len(),
{
    if data.len() == 0 {
        Some(Seq::empty())
    } else if data.len() < 8 {
        None
    } else {
        let n = le_value(data.subrange(0, 8)) as int;
        if 8 + n > data.len() {
            None
        } else {
            match parse_frames(data.subrange(8 + n, data.len() as int)) {
                Some(rest) => Some(seq![data.subrange(8, 8 + n)] + rest),
                None => None,
            }
        }
    }
}

/// The frames of a list that starts with `first` start with the frame of
/// `first`.
pub proof fn lemma_frames_front(first: Seq<u8>, rest: Seq<Seq<u8>>)
    ensures
        frames(seq![first] + rest) == framed(first) + frames(rest),
    decreases rest.len(),
{
    let all = seq![first] + rest;
    if rest.len() == 0 {
        assert(all.drop_last() =~= Seq::<Seq<u8>>::empty());
        assert(all.last() == first);
        assert(frames(all.drop_last()) =~= Seq::<u8>::empty());
        assert(frames(all) =~= framed(first) + frames(rest));
    } else {
        lemma_frames_front(first, rest.drop_last());
        assert(all.drop_last() =~= seq![first] + rest.drop_last());
        assert(all.last() == rest.last());
        assert(frames(all) =~= framed(first) + frames(rest));
    }
}

/// Appending one body to a list appends its frame to the frames.
pub proof fn lemma_frames_push(bodies: Seq<Seq<u8>>, body: Seq<u8>)
    ensures
        frames(bodies.push(body)) == frames(bodies) + framed(body),
{
    assert(bodies.push(body).drop_last() =~= bodies);
}

/// Splitting the frames of `bodies` gives `bodies` back, as long as every
/// length fits in eight bytes.
pub proof fn lemma_parse_frames_of_frames(bodies: Seq<Seq<u8>>)
    requires
        forall|i: int| 0 <= i < bodies.len() ==> #[trigger] bodies[i].len() <= u64::MAX,
    ensures
        parse_frames(frames(bodies)) == Some(bodies),
    decreases bodies.len(),
{
    if bodies.len() == 0 {
        assert(frames(bodies) =~= Seq::<u8>::empty());
    } else {
        let first = bodies[0];
        let rest = bodies.subrange(1, bodies.len() as int);
        assert(bodies =~= seq![first] + rest);
        lemma_frames_front(first, rest);
        assert forall|i: int| 0 <= i < rest.len() implies #[trigger] rest[i].len() <= u64::MAX by {
            assert(rest[i] == bodies[i + 1]);
        }
        lemma_parse_frames_of_frames(rest);
        let data = frames(bodies);
        lemma_le_bytes_len(first.len(), 8);
        lemma_byte_range_values();
        lemma_le_roundtrip(first.len(), 8);
        assert(data == le_bytes(first.len(), 8) + first + frames(rest));
        assert(data.subrange(0, 8) =~= le_bytes(first.len(), 8));
        assert(data.subrange(8, 8 + first.len() as int) =~= first);
        assert(data.subrange(8 + first.len() as int, data.len() as int) =~= frames(rest));
    }
}

/// `list` with the items at positions `i` and `j` exchanged.
pub open spec fn swapped<T>(list: Seq<T>, i: int, j: int) -> Seq<T> {
    list.update(i, list[j]).update(j, list[i])
}

/// Whether every body is short enough for an 8-byte length prefix.
pub open spec fn lengths_fit(bodies: Seq<Seq<u8>>) -> bool {
    forall|i: int| 0 <= i < bodies.len() ==> #[trigger] bodies[i].len() <= u64::MAX
}

/// Splitting what follows the header of an assembled block gives the
/// reward transaction and the body of every candidate back, unchanged and
/// in order.
pub proof fn lemma_block_roundtrip(coinbase: Seq<u8>, bodies: Seq<Seq<u8>>)
    requires
        coinbase.len() <= u64::MAX,
        lengths_fit(bodies),
    ensures
        block_bytes(coinbase, bodies).len() >= 80,
        block_bytes(coinbase, bodies).subrange(0, 80) == empty_header(),
        parse_frames(block_bytes(coinbase, bodies).skip(80)) == Some(seq![coinbase] + bodies),
{
    let all = seq![coinbase] + bodies;
    assert forall|i: int| 0 <= i < all.len() implies #[trigger] all[i].len() <= u64::MAX by {
        if i > 0 {
            assert(all[i] == bodies[i - 1]);
        }
    }
    lemma_parse_frames_of_frames(all);
    assert(block_bytes(coinbase, bodies).skip(80) =~= frames(all));
    assert(block_bytes(coinbase, bodies).subrange(0, 80) =~= empty_header());
}

/// Two assembled blocks are equal only if their reward transactions are
/// equal and their candidates have the same bodies in the same order.
pub proof fn lemma_block_injective(
    coinbase_a: Seq<u8>,
    bodies_a: Seq<Seq<u8>>,
    coinbase_b: Seq<u8>,
    bodies_b: Seq<Seq<u8>>,
)
    requires
        coinbase_a.len() <= u64::MAX,
        coinbase_b.len() <= u64::MAX,
        lengths_fit(bodies_a),
        lengths_fit(bodies_b),
        block_bytes(coinbase_a, bodies_a) == block_bytes(coinbase_b, bodies_b),
    ensures
        coinbase_a == coinbase_b,
        bodies_a == bodies_b,
{
    lemma_block_roundtrip(coinbase_a, bodies_a);
    lemma_block_roundtrip(coinbase_b, bodies_b);
    let a = seq![coinbase_a] + bodies_a;
    let b = seq![coinbase_b] + bodies_b;
    assert(a == b);
    assert(a[0] == coinbase_a && b[0] == coinbase_b);
    assert(bodies_a =~= a.subrange(1, a.len() as int));
    assert(bodies_b =~= b.subrange(1, b.len() as int));
}

/// Exchanging two candidates whose bodies differ changes the assembled
/// block.
pub proof fn lemma_swap_changes_block(coinbase: Seq<u8>, candidates: Seq<Candidate>, i: int, j: int)
    requires
        0 <= i < candidates.len(),
        0 <= j < candidates.len(),
        coinbase.len() <= u64::MAX,
        lengths_fit(candidate_bodies(candidates)),
        candidate_bodies(candidates)[i] != candidate_bodies(candidates)[j],
    ensures
        block_bytes(coinbase, candidate_bodies(swapped(candidates, i, j))) != block_bytes(
            coinbase,
            candidate_bodies(candidates),
        ),
{
    let before = candidate_bodies(candidates);
    let after = candidate_bodies(swapped(candidates, i, j));
    assert(after =~= swapped(before, i, j));
    assert(after[i] == before[j]);
    assert forall|k: int| 0 <= k < after.len() implies #[trigger] after[k].len() <= u64::MAX by {
        if k == i {
            assert(after[k] == before[j]);
        } else if k == j {
            assert(after[k] == before[i]);
        } else {
            assert(after[k] == before[k]);
        }
    }
    if block_bytes(coinbase, after) == block_bytes(coinbase, before) {
        lemma_block_injective(coinbase, after, coinbase, before);
    }
}

/// The body of a candidate without witness items is its transaction,
/// byte for byte.
pub proof fn lemma_body_without_witness(tx: Seq<u8>, stacks: Seq<Seq<Seq<u8>>>)
    requires
        witness_items(stacks).len() == 0,
    ensures
        candidate_body(tx, stacks) == tx,
{
    assert(frames(witness_items(stacks)) =~= Seq::<u8>::empty());
    assert(tx + Seq::<u8>::empty() =~= tx);
}

/// The body of a candidate decodes to the transaction that the
/// candidate's own bytes decode to: the witness items behind them are not
/// read.
pub proof fn lemma_body_decodes_as_transaction(tx: Seq<u8>, stacks: Seq<Seq<Seq<u8>>>)
    requires
        parse_transaction(tx) is Some,
    ensures
        parse_transaction(candidate_body(tx, stacks)) == parse_transaction(tx),
{
    lemma_decode_ignores_suffix(tx, frames(witness_items(stacks)));
}

/// The script of the reward input: the difficulty bits and an extra nonce.
pub open spec fn coinbase_script() -> Seq<u8> {
    seq![0x04u8, 0xffu8, 0xffu8, 0x00u8, 0x1du8, 0x01u8, 0x04u8]
}

/// The locking script of the reward output: pay to the public key hash of
/// 20 zero bytes.
pub open spec fn coinbase_locking_script() -> Seq<u8> {
    p2pkh_script(Seq::new(20, |i: int| 0u8))
}

/// The reward, 50 coins of 100 000 000 units each.
pub open spec fn coinbase_reward() -> nat {
    5_000_000_000
}

/// The bytes of the reward transaction: version 1; one input that spends
/// output `0xffffffff` of the all-zero transaction id with
/// [`coinbase_script`] and sequence number 0; one output of
/// [`coinbase_reward`] locked by [`coinbase_locking_script`]; lock time 0.
pub open spec fn coinbase_bytes() -> Seq<u8> {
    le_bytes(1, 4) + seq![1u8] + Seq::new(32, |i: int| 0u8) + le_bytes(0xffff_ffff, 4) + seq![7u8]
        + coinbase_script() + le_bytes(0, 4) + seq![1u8] + le_bytes(coinbase_reward(), 8) + seq![
        25u8,
    ] + coinbase_locking_script() + le_bytes(0, 4)
}

/// The reward transaction as a decoded transaction.
pub open spec fn coinbase_model() -> TxModel {
    TxModel {
        version: 1,
        segwit: false,
        inputs: seq![
            InputModel {
                prev_txid: Seq::new(32, |i: int| 0u8),
                prev_index: 0xffff_ffff,
                script_sig: coinbase_script(),
                sequence: 0,
                witness: Seq::empty(),
            },
        ],
        outputs: seq![
            OutputModel { value: 5_000_000_000, script_pubkey: coinbase_locking_script() },
        ],
        lock_time: 0,
    }
}

/// The bytes of the reward transaction are the encoding of
/// [`coinbase_model`].
pub proof fn lemma_coinbase_encodes()
    ensures
        coinbase_bytes() == serialize(coinbase_model()),
{
    let tx = coinbase_model();
    let input = tx.inputs[0];
    let output = tx.outputs[0];
    let version = le_bytes(1, 4);
    let zero = le_bytes(0, 4);
    let one = seq![1u8];
    lemma_le_bytes_len(1, 4);
    lemma_le_bytes_len(0, 4);
    lemma_le_bytes_len(0xffff_ffff, 4);
    lemma_le_bytes_len(coinbase_reward(), 8);
    assert(compact(1) =~= one);
    assert(compact(7) =~= seq![7u8]);
    assert(compact(25) =~= seq![25u8]);
    assert(coinbase_script().len() == 7);
    assert(coinbase_locking_script().len() == 25);
    let encoded_input = input_bytes(input);
    let encoded_output = output_bytes(output);
    assert(encoded_input =~= Seq::new(32, |i: int| 0u8) + le_bytes(0xffff_ffff, 4) + seq![7u8]
        + coinbase_script() + zero);
    assert(encoded_output =~= le_bytes(coinbase_reward(), 8) + seq![25u8]
        + coinbase_locking_script());
    assert(inputs_bytes(tx.inputs) =~= encoded_input) by {
        assert(tx.inputs.drop_last() =~= Seq::<InputModel>::empty());
        assert(tx.inputs.last() == input);
        assert(inputs_bytes(tx.inputs.drop_last()) =~= Seq::<u8>::empty());
    }
    assert(outputs_bytes(tx.outputs) =~= encoded_output) by {
        assert(tx.outputs.drop_last() =~= Seq::<OutputModel>::empty());
        assert(tx.outputs.last() == output);
        assert(outputs_bytes(tx.outputs.drop_last()) =~= Seq::<u8>::empty());
    }
    let joined = version + one + encoded_input + one + encoded_output + zero;
    assert(serialize(tx) =~= joined);
    assert(coinbase_bytes() =~= joined);
}

/// The bytes of the reward transaction decode to [`coinbase_model`], and
/// its output is locked by a pay-to-public-key-hash script.
pub proof fn lemma_coinbase_decodes()
    ensures
        parse_transaction(coinbase_bytes()) == Some(coinbase_model()),
        is_p2pkh_script(coinbase_locking_script()),
{
    lemma_p2pkh_script_recognised(Seq::new(20, |i: int| 0u8));
    lemma_coinbase_encodes();
    let tx = coinbase_model();
    assert(coinbase_script().len() == 7);
    assert(coinbase_locking_script().len() == 25);
    assert(well_formed(tx));
    lemma_decode_inverts_encode(tx);
}

/// Builds the reward transaction that opens every block.
pub fn create_coinbase_transaction() -> (tx: Vec<u8>)
    ensures
        tx@ == coinbase_bytes(),
        tx@ == serialize(coinbase_model()),
        tx@.len() == 92,
{
    let mut tx: Vec<u8> = Vec::new();
    // version
    append_le(&mut tx, 1, 4);
    // input count
    tx.push(0x01);
    // previous transaction id
    let mut i: usize = 0;
    while i < 32
        invariant
            i <= 32,
            tx@ == le_bytes(1, 4) + seq![1u8] + Seq::new(i as nat, |k: int| 0u8),
        decreases 32 - i,
    {
        tx.push(0x00);
        i += 1;
        assert(tx@ =~= le_bytes(1, 4) + seq![1u8] + Seq::new(i as nat, |k: int| 0u8));
    }
    // previous output index
    append_le(&mut tx, 0xffff_ffff, 4);
    // unlocking script
    tx.push(0x07);
    tx.push(0x04);
    tx.push(0xff);
    tx.push(0xff);
    tx.push(0x00);
    tx.push(0x1d);
    tx.push(0x01);
    tx.push(0x04);
    // sequence number
    append_le(&mut tx, 0, 4);
    // output count
    tx.push(0x01);
    // value
    append_le(&mut tx, 5_000_000_000, 8);
    let ghost head = tx@;
    assert(head =~= le_bytes(1, 4) + seq![1u8] + Seq::new(32, |i: int| 0u8) + le_bytes(
        0xffff_ffff,
        4,
    ) + seq![7u8] + coinbase_script() + le_bytes(0, 4) + seq![1u8] + le_bytes(
        coinbase_reward(),
        8,
    ));
    // locking script
    tx.push(0x19);
    tx.push(0x76);
    tx.push(0xa9);
    tx.push(0x14);
    let mut j: usize = 0;
    while j < 20
        invariant
            j <= 20,
            tx@ == head + seq![25u8] + seq![0x76u8, 0xa9u8, 0x14u8] + Seq::new(
                j as nat,
                |k: int| 0u8,
            ),
        decreases 20 - j,
    {
        tx.push(0x00);
        j += 1;
        assert(tx@ =~= head + seq![25u8] + seq![0x76u8, 0xa9u8, 0x14u8] + Seq::new(
            j as nat,
            |k: int| 0u8,
        ));
    }
    tx.push(0x88);
    tx.push(0xac);
    // lock time
    append_le(&mut tx, 0, 4);
    proof {
        lemma_le_bytes_len(1, 4);
        lemma_le_bytes_len(0xffff_ffff, 4);
        lemma_le_bytes_len(0, 4);
        lemma_le_bytes_len(coinbase_reward(), 8);
        assert(tx@ =~= coinbase_bytes());
        lemma_coinbase_encodes();
    }
    tx
}

/// Appends the frame of `body` to `dst`.
pub fn append_framed(dst: &mut Vec<u8>, body: &[u8])
    ensures
        final(dst)@ == old(dst)@ + framed(body@),
{
    let len: u64 = body.len() as u64;
    append_le(dst, len, PREFIX_LEN);
    append_bytes(dst, body);
    assert(dst@ =~= old(dst)@ + framed(body@));
}

/// The frames of a concatenation are the concatenation of the frames.
pub proof fn lemma_frames_concat(a: Seq<Seq<u8>>, b: Seq<Seq<u8>>)
    ensures
        frames(a + b) == frames(a) + frames(b),
    decreases b.len(),
{
    if b.len() == 0 {
        assert(a + b =~= a);
        assert(frames(a) + frames(b) =~= frames(a));
    } else {
        lemma_frames_concat(a, b.drop_last());
        assert((a + b).drop_last() =~= a + b.drop_last());
        assert((a + b).last() == b.last());
        assert(frames(a + b) =~= frames(a) + frames(b));
    }
}

/// Appends the frame of every item of `stack` to `dst`, in order.
fn append_stack(dst: &mut Vec<u8>, stack: &Vec<Vec<u8>>)
    ensures
        final(dst)@ == old(dst)@ + frames(items_view(*stack)),
{
    let ghost items = items_view(*stack);
    let mut i: usize = 0;
    assert(items.subrange(0, 0) =~= Seq::<Seq<u8>>::empty());
    assert(dst@ =~= old(dst)@ + frames(items.subrange(0, 0)));
    while i < stack.len()
        invariant
            i <= stack.len(),
            items == items_view(*stack),
            dst@ == old(dst)@ + frames(items.subrange(0, i as int)),
        decreases stack.len() - i,
    {
        append_framed(dst, stack[i].as_slice());
        proof {
            assert(items.subrange(0, i + 1) =~= items.subrange(0, i as int).push(items[i as int]));
            lemma_frames_push(items.subrange(0, i as int), items[i as int]);
            assert(dst@ =~= old(dst)@ + frames(items.subrange(0, i + 1)));
        }
        i += 1;
    }
    assert(items.subrange(0, i as int) =~= items);
}

/// Serializes a candidate: the transaction bytes, then every witness item
/// of every stack behind its length.
pub fn serialize_candidate(tx: &[u8], witness: &WitnessBundle) -> (body: Vec<u8>)
    ensures
        body@ == candidate_body(tx@, stacks_view(*witness)),
{
    let ghost stacks = stacks_view(*witness);
    let mut body: Vec<u8> = Vec::new();
    append_bytes(&mut body, tx);
    let mut i: usize = 0;
    proof {
        assert(stacks.subrange(0, 0) =~= Seq::<Seq<Seq<u8>>>::empty());
        assert(body@ =~= tx@ + frames(witness_items(stacks.subrange(0, 0))));
    }
    while i < witness.len()
        invariant
            i <= witness.len(),
            stacks == stacks_view(*witness),
            body@ == tx@ + frames(witness_items(stacks.subrange(0, i as int))),
        decreases witness.len() - i,
    {
        append_stack(&mut body, &witness[i]);
        proof {
            let done = stacks.subrange(0, i as int);
            let next = stacks.subrange(0, i + 1);
            assert(next.drop_last() =~= done);
            assert(next.last() == items_view(witness@[i as int]));
            lemma_frames_concat(witness_items(done), stacks[i as int]);
            assert(body@ =~= tx@ + frames(witness_items(next)));
        }
        i += 1;
    }
    assert(stacks.subrange(0, i as int) =~= stacks);
    body
}

/// Assembles a block: 80 zero bytes, the reward transaction behind its
/// length, then each candidate's serialized body behind its length, in the
/// order of `valid_transactions`.
pub fn construct_block(coinbase_tx: &[u8], valid_transactions: &[Candidate]) -> (block: Vec<u8>)
    ensures
        block@ == block_bytes(coinbase_tx@, candidate_bodies(valid_transactions@)),
{
    let ghost bodies = candidate_bodies(valid_transactions@);
    let mut block: Vec<u8> = Vec::new();
    let mut h: usize = 0;
    while h < HEADER_LEN
        invariant
            h <= HEADER_LEN,
            block@ == Seq::new(h as nat, |i: int| 0u8),
        decreases HEADER_LEN - h,
    {
        block.push(0u8);
        h += 1;
        assert(block@ =~= Seq::new(h as nat, |i: int| 0u8));
    }
    append_framed(&mut block, coinbase_tx);
    let mut i: usize = 0;
    proof {
        let first = seq![coinbase_tx@];
        assert(first.drop_last() =~= Seq::<Seq<u8>>::empty());
        assert(frames(first.drop_last()) =~= Seq::<u8>::empty());
        assert(frames(first) =~= framed(coinbase_tx@));
        assert(first + bodies.subrange(0, 0) =~= first);
    }
    while i < valid_transactions.len()
        invariant
            i <= valid_transactions.len(),
            bodies == candidate_bodies(valid_transactions@),
            block@ == empty_header() + frames(seq![coinbase_tx@] + bodies.subrange(0, i as int)),
        decreases valid_transactions.len() - i,
    {
        let body = serialize_candidate(valid_transactions[i].0.as_slice(), &valid_transactions[i].1);
        append_framed(&mut block, body.as_slice());
        proof {
            let done = seq![coinbase_tx@] + bodies.subrange(0, i as int);
            assert(body@ == bodies[i as int]);
            assert(seq![coinbase_tx@] + bodies.subrange(0, i + 1) =~= done.push(bodies[i as int]));
            lemma_frames_push(done, bodies[i as int]);
            assert(block@ =~= empty_header() + frames(
                seq![coinbase_tx@] + bodies.subrange(0, i + 1),
            ));
        }
        i += 1;
    }
    assert(bodies.subrange(0, i as int) =~= bodies);
    block
}

/// Splits a block back into its bodies, the reward transaction first.
///
/// Returns `None` where the block is shorter than a header, or where a
/// length prefix is cut short or promises more bytes than are left.
pub fn split_block(block: &[u8]) -> (bodies: Option<Vec<Vec<u8>>>)
    ensures
        block@.len() < 80 ==> bodies is None,
        block@.len() >= 80 ==> match parse_frames(block@.skip(80)) {
            Some(parsed) => bodies is Some && items_view(bodies->0) == parsed,
            None => bodies is None,
        },
{
    if block.len() < HEADER_LEN {
        return None;
    }
    let ghost data = block@.skip(80);
    let mut out: Vec<Vec<u8>> = Vec::new();
    let mut pos: usize = HEADER_LEN;
    proof {
        assert(block@.subrange(pos as int, block@.len() as int) =~= data);
        assert(items_view(out) =~= Seq::<Seq<u8>>::empty());
    }
    while pos < block.len()
        invariant
            HEADER_LEN <= pos <= block.len(),
            data == block@.skip(80),
            parse_frames(data) == match parse_frames(block@.subrange(pos as int, block@.len() as int)) {
                Some(rest) => Some(items_view(out) + rest),
                None => None,
            },
        decreases block.len() - pos,
    {
        let ghost here = block@.subrange(pos as int, block@.len() as int);
        if block.len() - pos < PREFIX_LEN {
            return None;
        }
        let n: u64 = read_le(block, pos, PREFIX_LEN);
        proof {
            assert(here.subrange(0, 8) =~= block@.subrange(pos as int, pos + 8));
        }
        if n > (block.len() - pos - PREFIX_LEN) as u64 {
            return None;
        }
        let start: usize = pos + PREFIX_LEN;
        let end: usize = start + n as usize;
        let body = copy_range(block, start, end);
        proof {
            assert(here.subrange(8, 8 + n as int) =~= body@);
            assert(here.subrange(8 + n as int, here.len() as int) =~= block@.subrange(
                end as int,
                block@.len() as int,
            ));
            let rest = parse_frames(block@.subrange(end as int, block@.len() as int));
            if rest is Some {
                assert(items_view(out).push(body@) + rest->0 =~= items_view(out) + (seq![
                    body@,
                ] + rest->0));
            }
        }
        let ghost before = items_view(out);
        out.push(body);
        proof {
            assert(items_view(out) =~= before.push(body@));
        }
        pos = end;
    }
    proof {
        assert(block@.subrange(pos as int, block@.len() as int).len() == 0);
        assert(items_view(out) + Seq::<Seq<u8>>::empty() =~= items_view(out));
    }
    Some(out)
}

} // verus!
