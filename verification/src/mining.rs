//! Proof of work: the search for a nonce under which the double hash of a
//! block, read as a big-endian number, is below a target.

use vstd::prelude::*;
use crate::bytes::{append_bytes, append_le, be_value, le_bytes, le_value, read_le};
use crate::bytes::{lemma_be_first_difference, lemma_be_largest, lemma_byte_range_values};
use crate::bytes::{lemma_le_bytes_len, lemma_le_roundtrip, lemma_le_value_bound};
use crate::hash::{double_hash, double_sha256};

verus! {

/// Position of the nonce in a block: the last four bytes of the header.
pub const NONCE_OFFSET: usize = 76;

/// Number of bytes in a nonce.
pub const NONCE_LEN: usize = 4;

/// `block` with `nonce` written into header bytes 76 to 79, little-endian.
pub open spec fn with_nonce(block: Seq<u8>, nonce: u32) -> Seq<u8> {
    block.subrange(0, 76) + le_bytes(nonce as nat, 4) + block.subrange(80, block.len() as int)
}

/// The nonce that header bytes 76 to 79 of `block` hold.
pub open spec fn nonce_of(block: Seq<u8>) -> nat {
    le_value(block.subrange(76, 80))
}

/// Whether `hash` is below `target`, both read as big-endian numbers.
pub open spec fn below_target(hash: Seq<u8>, target: Seq<u8>) -> bool {
    be_value(hash) < be_value(target)
}

/// Whether `block` with `nonce` written into it hashes below `target`.
pub open spec fn solves(block: Seq<u8>, nonce: u32, target: Seq<u8>) -> bool {
    below_target(double_sha256(with_nonce(block, nonce)), target)
}

/// Whether `nonce` is the smallest nonce that solves `block`.
pub open spec fn is_first_solution(block: Seq<u8>, nonce: u32, target: Seq<u8>) -> bool {
    &&& solves(block, nonce, target)
    &&& forall|smaller: u32| smaller < nonce ==> !#[trigger] solves(block, smaller, target)
}

/// What a search may return for `block` and `target`: the block with its
/// first solution written into the header, or nothing where no nonce
/// solves the block.
pub open spec fn is_search_result(block: Seq<u8>, target: Seq<u8>, mined: Option<Seq<u8>>) -> bool {
    match mined {
        Some(found) => exists|nonce: u32|
            is_first_solution(block, nonce, target) && found == #[trigger] with_nonce(block, nonce),
        None => forall|nonce: u32| !#[trigger] solves(block, nonce, target),
    }
}

/// The bytes of a mined block, where there is one.
pub open spec fn mined_view(mined: Option<Vec<u8>>) -> Option<Seq<u8>> {
    match mined {
        Some(block) => Some(block@),
        None => None,
    }
}

/// Writing a nonce keeps the length, changes nothing outside header bytes
/// 76 to 79, and the nonce can be read back.
pub proof fn lemma_with_nonce(block: Seq<u8>, nonce: u32)
    requires
        block.len() >= 80,
    ensures
        with_nonce(block, nonce).len() == block.len(),
        nonce_of(with_nonce(block, nonce)) == nonce,
        forall|i: int|
            0 <= i < block.len() && !(76 <= i < 80) ==> #[trigger] with_nonce(block, nonce)[i]
                == block[i],
        forall|other: u32|
            with_nonce(#[trigger] with_nonce(block, other), nonce) == with_nonce(block, nonce),
{
    lemma_le_bytes_len(nonce as nat, 4);
    lemma_byte_range_values();
    lemma_le_roundtrip(nonce as nat, 4);
    assert(with_nonce(block, nonce).subrange(76, 80) =~= le_bytes(nonce as nat, 4));
    assert forall|other: u32| with_nonce(#[trigger] with_nonce(block, other), nonce) == with_nonce(
        block,
        nonce,
    ) by {
        lemma_le_bytes_len(other as nat, 4);
        let w = with_nonce(block, other);
        assert(w.subrange(0, 76) =~= block.subrange(0, 76));
        assert(w.subrange(80, w.len() as int) =~= block.subrange(80, block.len() as int));
    }
}

/// The largest target: 32 bytes of `0xff`.
pub open spec fn largest_target() -> Seq<u8> {
    Seq::new(32, |i: int| 0xffu8)
}

/// Under the largest target the search ends at nonce 0, unless the double
/// hash of the block with nonce 0 is itself 32 bytes of `0xff`.
pub proof fn lemma_largest_target_first_nonce(block: Seq<u8>)
    requires
        block.len() >= 80,
        double_sha256(with_nonce(block, 0)).len() == 32,
        double_sha256(with_nonce(block, 0)) != largest_target(),
    ensures
        is_first_solution(block, 0, largest_target()),
{
    lemma_be_largest(double_sha256(with_nonce(block, 0)));
}

/// At most one nonce is the first solution of a block.
pub proof fn lemma_first_solution_unique(block: Seq<u8>, target: Seq<u8>, a: u32, b: u32)
    requires
        is_first_solution(block, a, target),
        is_first_solution(block, b, target),
    ensures
        a == b,
{
}

/// A search has one result: whatever two searches of the same block under
/// the same target return is the same.
pub proof fn lemma_search_result_unique(
    block: Seq<u8>,
    target: Seq<u8>,
    a: Option<Seq<u8>>,
    b: Option<Seq<u8>>,
)
    requires
        is_search_result(block, target, a),
        is_search_result(block, target, b),
    ensures
        a == b,
{
    if a is Some && b is Some {
        let m = choose|nonce: u32|
            is_first_solution(block, nonce, target) && a->0 == #[trigger] with_nonce(block, nonce);
        let n = choose|nonce: u32|
            is_first_solution(block, nonce, target) && b->0 == #[trigger] with_nonce(block, nonce);
        lemma_first_solution_unique(block, target, m, n);
    } else if a is Some {
        let m = choose|nonce: u32|
            is_first_solution(block, nonce, target) && a->0 == #[trigger] with_nonce(block, nonce);
        assert(solves(block, m, target));
    } else if b is Some {
        let n = choose|nonce: u32|
            is_first_solution(block, nonce, target) && b->0 == #[trigger] with_nonce(block, nonce);
        assert(solves(block, n, target));
    }
}

/// Whether `hash` is below `target`: the 32 bytes are compared from index 0
/// on, and the first difference decides.
pub fn meets_target(hash: &[u8; 32], target: &[u8; 32]) -> (below: bool)
    ensures
        below == below_target(hash@, target@),
{
    let mut i: usize = 0;
    while i < 32
        invariant
            i <= 32,
            hash@.subrange(0, i as int) == target@.subrange(0, i as int),
        decreases 32 - i,
    {
        if hash[i] < target[i] {
            proof {
                lemma_be_first_difference(hash@, target@, i as int);
            }
            return true;
        }
        if hash[i] > target[i] {
            proof {
                lemma_be_first_difference(target@, hash@, i as int);
            }
            return false;
        }
        i += 1;
        assert(hash@.subrange(0, i as int) =~= hash@.subrange(0, i - 1).push(hash@[i - 1]));
        assert(target@.subrange(0, i as int) =~= target@.subrange(0, i - 1).push(target@[i - 1]));
    }
    assert(hash@ =~= hash@.subrange(0, 32));
    assert(target@ =~= target@.subrange(0, 32));
    false
}

/// Writes `nonce` into header bytes 76 to 79 of `block`, little-endian.
pub fn write_nonce(block: &mut Vec<u8>, nonce: u32)
    requires
        old(block)@.len() >= 80,
    ensures
        final(block)@ == with_nonce(old(block)@, nonce),
{
    let mut encoded: Vec<u8> = Vec::new();
    append_le(&mut encoded, nonce as u64, NONCE_LEN);
    proof {
        lemma_le_bytes_len(nonce as nat, 4);
        assert(encoded@ =~= le_bytes(nonce as nat, 4));
    }
    let mut i: usize = 0;
    while i < NONCE_LEN
        invariant
            i <= NONCE_LEN,
            encoded@ == le_bytes(nonce as nat, 4),
            encoded@.len() == 4,
            block@.len() == old(block)@.len(),
            block@.len() >= 80,
            forall|k: int| 0 <= k < block@.len() && !(76 <= k < 76 + i) ==> block@[k] == old(block)@[k],
            forall|k: int| 76 <= k < 76 + i ==> block@[k] == encoded@[k - 76],
        decreases NONCE_LEN - i,
    {
        block[NONCE_OFFSET + i] = encoded[i];
        i += 1;
    }
    assert(block@ =~= with_nonce(old(block)@, nonce));
}

/// Reads the nonce that header bytes 76 to 79 of `block` hold.
pub fn read_nonce(block: &[u8]) -> (nonce: u32)
    requires
        block@.len() >= 80,
    ensures
        nonce == nonce_of(block@),
{
    let value: u64 = read_le(block, NONCE_OFFSET, NONCE_LEN);
    proof {
        lemma_le_value_bound(block@.subrange(76, 80));
        lemma_byte_range_values();
    }
    value as u32
}

/// Searches the nonces from 0 upwards for the first one under which the
/// double hash of the whole block is below `difficulty_target`.
///
/// Returns the block with that nonce written into its header, or `None`
/// where none of the 2^32 nonces solves the block. Under the largest
/// target the search ends at nonce 0, unless the double hash of the block
/// with nonce 0 is itself 32 bytes of `0xff`.
pub fn mine_block(block_data: &[u8], difficulty_target: &[u8; 32]) -> (mined: Option<Vec<u8>>)
    requires
        block_data@.len() >= 80,
    ensures
        is_search_result(block_data@, difficulty_target@, mined_view(mined)),
        mined matches Some(block) ==> block@.len() == block_data@.len() && is_first_solution(
            block_data@,
            nonce_of(block@) as u32,
            difficulty_target@,
        ) && below_target(double_sha256(block@), difficulty_target@),
        difficulty_target@ == largest_target() ==> mined_view(mined) == Some(
            with_nonce(block_data@, 0),
        ) || double_sha256(with_nonce(block_data@, 0)) == largest_target(),
{
    let mut block: Vec<u8> = Vec::new();
    append_bytes(&mut block, block_data);
    assert(block@ =~= block_data@);
    let mut nonce: u32 = 0;
    loop
        invariant
            block_data@.len() >= 80,
            block@.len() == block_data@.len(),
            forall|other: u32| with_nonce(block@, other) == with_nonce(block_data@, other),
            forall|smaller: u32|
                smaller < nonce ==> !#[trigger] solves(block_data@, smaller, difficulty_target@),
            nonce > 0 && difficulty_target@ == largest_target() ==> double_sha256(
                with_nonce(block_data@, 0),
            ) == largest_target(),
        decreases u32::MAX - nonce,
    {
        write_nonce(&mut block, nonce);
        proof {
            lemma_with_nonce(block_data@, nonce);
            assert(block@ == with_nonce(block_data@, nonce));
        }
        let hash = double_hash(block.as_slice());
        if meets_target(&hash, difficulty_target) {
            return Some(block);
        }
        proof {
            if nonce == 0 && difficulty_target@ == largest_target() {
                lemma_be_largest(hash@);
            }
        }
        if nonce == u32::MAX {
            return None;
        }
        nonce += 1;
    }
}

} // verus!
