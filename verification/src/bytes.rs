//! Byte-level building blocks: little-endian integers, big-endian magnitudes
//! and copying between buffers.

use vstd::prelude::*;

verus! {

/// The items of a list of byte vectors as sequences of bytes.
pub open spec fn items_view(items: Vec<Vec<u8>>) -> Seq<Seq<u8>> {
    Seq::new(items@.len(), |i: int| items@[i]@)
}

/// The lists of a list of lists of byte vectors as sequences.
pub open spec fn stacks_view(stacks: Vec<Vec<Vec<u8>>>) -> Seq<Seq<Seq<u8>>> {
    Seq::new(stacks@.len(), |i: int| items_view(stacks@[i]))
}

/// The little-endian encoding of `value` in exactly `width` bytes.
///
/// Bits of `value` above the `width`-th byte are dropped.
pub open spec fn le_bytes(value: nat, width: nat) -> Seq<u8>
    decreases width,
{
    if width == 0 {
        Seq::empty()
    } else {
        seq![(value % 256) as u8] + le_bytes(value / 256, (width - 1) as nat)
    }
}

/// The number that `bytes` encodes in little-endian order.
pub open spec fn le_value(bytes: Seq<u8>) -> nat
    decreases bytes.len(),
{
    if bytes.len() == 0 {
        0
    } else {
        bytes[0] as nat + 256 * le_value(bytes.subrange(1, bytes.len() as int))
    }
}

/// The number that `bytes` encodes in big-endian order: the byte at index 0
/// is the most significant one.
pub open spec fn be_value(bytes: Seq<u8>) -> nat
    decreases bytes.len(),
{
    if bytes.len() == 0 {
        0
    } else {
        be_value(bytes.drop_last()) * 256 + bytes.last() as nat
    }
}

/// `256` raised to the power `width`.
pub open spec fn byte_range(width: nat) -> nat
    decreases width,
{
    if width == 0 {
        1
    } else {
        256 * byte_range((width - 1) as nat)
    }
}

/// `byte_range` grows by a factor of 256 with each byte.
pub proof fn lemma_byte_range_step(width: nat)
    ensures
        byte_range(width + 1) == 256 * byte_range(width),
        byte_range(width) >= 1,
    decreases width,
{
    if width > 0 {
        lemma_byte_range_step((width - 1) as nat);
    }
}

/// `byte_range` is monotone.
pub proof fn lemma_byte_range_monotone(a: nat, b: nat)
    requires
        a <= b,
    ensures
        byte_range(a) <= byte_range(b),
    decreases b,
{
    if a < b {
        lemma_byte_range_monotone(a, (b - 1) as nat);
        lemma_byte_range_step((b - 1) as nat);
    }
}

/// The values of `byte_range` at the widths that this crate uses.
pub proof fn lemma_byte_range_values()
    ensures
        byte_range(1) == 0x100,
        byte_range(2) == 0x1_0000,
        byte_range(4) == 0x1_0000_0000,
        byte_range(8) == 0x1_0000_0000_0000_0000,
{
    reveal_with_fuel(byte_range, 9);
}

/// A little-endian encoding has the width that was asked for.
pub proof fn lemma_le_bytes_len(value: nat, width: nat)
    ensures
        le_bytes(value, width).len() == width,
    decreases width,
{
    if width > 0 {
        lemma_le_bytes_len(value / 256, (width - 1) as nat);
    }
}

/// Decoding a little-endian encoding gives the number back, as long as the
/// number fits in the width.
pub proof fn lemma_le_roundtrip(value: nat, width: nat)
    requires
        value < byte_range(width),
    ensures
        le_value(le_bytes(value, width)) == value,
    decreases width,
{
    if width > 0 {
        let rest = le_bytes(value / 256, (width - 1) as nat);
        let all = le_bytes(value, width);
        lemma_le_bytes_len(value / 256, (width - 1) as nat);
        assert(value / 256 < byte_range((width - 1) as nat)) by (nonlinear_arith)
            requires
                value < 256 * byte_range((width - 1) as nat),
        ;
        lemma_le_roundtrip(value / 256, (width - 1) as nat);
        assert(all.subrange(1, all.len() as int) =~= rest);
        assert(all[0] == (value % 256) as u8);
    }
}

/// Every sequence of bytes decodes to a number below `256` to the power of
/// its length.
pub proof fn lemma_le_value_bound(bytes: Seq<u8>)
    ensures
        le_value(bytes) < byte_range(bytes.len()),
    decreases bytes.len(),
{
    if bytes.len() > 0 {
        lemma_le_value_bound(bytes.subrange(1, bytes.len() as int));
    }
}

/// Of two byte strings of equal length, the one with the smaller byte at
/// the first position where they differ is the smaller big-endian number.
pub proof fn lemma_be_first_difference(a: Seq<u8>, b: Seq<u8>, i: int)
    requires
        a.len() == b.len(),
        0 <= i < a.len(),
        a.subrange(0, i) == b.subrange(0, i),
        a[i] < b[i],
    ensures
        be_value(a) < be_value(b),
    decreases a.len(),
{
    let n = a.len() as int;
    if i == n - 1 {
        assert(a.drop_last() =~= a.subrange(0, i));
        assert(b.drop_last() =~= b.subrange(0, i));
    } else {
        assert(a.drop_last().subrange(0, i) =~= a.subrange(0, i));
        assert(b.drop_last().subrange(0, i) =~= b.subrange(0, i));
        lemma_be_first_difference(a.drop_last(), b.drop_last(), i);
    }
}

/// No byte string is a larger big-endian number than the string of `0xff`
/// bytes of its length, and only that string is as large.
pub proof fn lemma_be_largest(bytes: Seq<u8>)
    ensures
        be_value(bytes) <= be_value(Seq::new(bytes.len(), |i: int| 0xffu8)),
        be_value(bytes) == be_value(Seq::new(bytes.len(), |i: int| 0xffu8)) ==> bytes == Seq::new(
            bytes.len(),
            |i: int| 0xffu8,
        ),
    decreases bytes.len(),
{
    let top = Seq::new(bytes.len(), |i: int| 0xffu8);
    if bytes.len() > 0 {
        let shorter = Seq::new((bytes.len() - 1) as nat, |i: int| 0xffu8);
        lemma_be_largest(bytes.drop_last());
        assert(top.drop_last() =~= shorter);
        assert(top.last() == 0xffu8);
        if be_value(bytes) == be_value(top) {
            assert(bytes.drop_last() == shorter);
            assert(bytes.last() == 0xffu8);
            assert forall|i: int| 0 <= i < bytes.len() implies bytes[i] == top[i] by {
                if i < bytes.len() - 1 {
                    assert(bytes[i] == bytes.drop_last()[i]);
                }
            }
            assert(bytes =~= top);
        }
    } else {
        assert(bytes =~= top);
    }
}

/// Appends a copy of `src` to `dst`.
pub fn append_bytes(dst: &mut Vec<u8>, src: &[u8])
    ensures
        final(dst)@ == old(dst)@ + src@,
{
    let mut i: usize = 0;
    while i < src.len()
        invariant
            i <= src.len(),
            dst@ == old(dst)@ + src@.subrange(0, i as int),
        decreases src.len() - i,
    {
        dst.push(src[i]);
        i += 1;
        assert(dst@ =~= old(dst)@ + src@.subrange(0, i as int));
    }
    assert(src@.subrange(0, src.len() as int) =~= src@);
}

/// A fresh vector that holds the bytes of `src` from `start` up to, not
/// including, `end`.
pub fn copy_range(src: &[u8], start: usize, end: usize) -> (out: Vec<u8>)
    requires
        start <= end <= src.len(),
    ensures
        out@ == src@.subrange(start as int, end as int),
{
    let mut out: Vec<u8> = Vec::new();
    let mut i: usize = start;
    while i < end
        invariant
            start <= i <= end <= src.len(),
            out@ == src@.subrange(start as int, i as int),
        decreases end - i,
    {
        out.push(src[i]);
        i += 1;
        assert(out@ =~= src@.subrange(start as int, i as int));
    }
    out
}

/// A fresh list that holds a copy of every item of `items`, in order.
pub fn copy_items(items: &Vec<Vec<u8>>) -> (out: Vec<Vec<u8>>)
    ensures
        items_view(out) == items_view(*items),
{
    let mut out: Vec<Vec<u8>> = Vec::new();
    let mut i: usize = 0;
    while i < items.len()
        invariant
            i <= items.len(),
            out@.len() == i,
            forall|k: int| 0 <= k < i ==> #[trigger] out@[k]@ == items@[k]@,
        decreases items.len() - i,
    {
        let item = copy_range(items[i].as_slice(), 0, items[i].len());
        assert(item@ =~= items@[i as int]@);
        out.push(item);
        i += 1;
    }
    assert(items_view(out) =~= items_view(*items));
    out
}

/// Whether `a` and `b` hold the same bytes.
pub fn bytes_equal(a: &[u8], b: &[u8]) -> (same: bool)
    ensures
        same == (a@ == b@),
{
    if a.len() != b.len() {
        return false;
    }
    let mut i: usize = 0;
    while i < a.len()
        invariant
            i <= a.len(),
            a.len() == b.len(),
            a@.subrange(0, i as int) == b@.subrange(0, i as int),
        decreases a.len() - i,
    {
        if a[i] != b[i] {
            return false;
        }
        i += 1;
        assert(a@.subrange(0, i as int) =~= a@.subrange(0, i - 1).push(a@[i - 1]));
        assert(b@.subrange(0, i as int) =~= b@.subrange(0, i - 1).push(b@[i - 1]));
    }
    assert(a@ =~= a@.subrange(0, i as int));
    assert(b@ =~= b@.subrange(0, i as int));
    true
}

/// Appends the little-endian encoding of `value` in `width` bytes to `dst`.
pub fn append_le(dst: &mut Vec<u8>, value: u64, width: usize)
    ensures
        final(dst)@ == old(dst)@ + le_bytes(value as nat, width as nat),
{
    let mut rest: u64 = value;
    let mut i: usize = 0;
    proof {
        assert(le_bytes(rest as nat, 0) =~= Seq::<u8>::empty());
        assert(dst@ =~= old(dst)@ + Seq::<u8>::empty());
    }
    while i < width
        invariant
            i <= width,
            old(dst)@ + le_bytes(value as nat, width as nat) == dst@ + le_bytes(
                rest as nat,
                (width - i) as nat,
            ),
        decreases width - i,
    {
        let low: u8 = (rest % 256) as u8;
        proof {
            let tail = le_bytes((rest / 256) as nat, (width - i - 1) as nat);
            assert(le_bytes(rest as nat, (width - i) as nat) == seq![low] + tail);
            assert(dst@ + (seq![low] + tail) =~= dst@.push(low) + tail);
        }
        dst.push(low);
        rest = rest / 256;
        i += 1;
    }
    proof {
        assert(le_bytes(rest as nat, 0) =~= Seq::<u8>::empty());
        assert(dst@ + Seq::<u8>::empty() =~= dst@);
    }
}

/// Reads the little-endian number held in the `width` bytes of `src` that
/// start at `start`.
pub fn read_le(src: &[u8], start: usize, width: usize) -> (value: u64)
    requires
        width <= 8,
        start + width <= src.len(),
    ensures
        value as nat == le_value(src@.subrange(start as int, start + width)),
{
    let mut value: u64 = 0;
    let mut i: usize = width;
    proof {
        assert(src@.subrange(start + width, start + width).len() == 0);
    }
    while i > 0
        invariant
            i <= width <= 8,
            start + width <= src.len(),
            value as nat == le_value(src@.subrange(start + i, start + width)),
            (value as nat) < byte_range((width - i) as nat),
        decreases i,
    {
        i -= 1;
        proof {
            let cur = src@.subrange(start + i, start + width);
            let old_tail = src@.subrange(start + i + 1, start + width);
            assert(cur.subrange(1, cur.len() as int) =~= old_tail);
            assert(cur[0] == src@[start + i]);
            lemma_byte_range_step((width - i - 1) as nat);
            lemma_byte_range_monotone((width - i) as nat, 8);
            lemma_byte_range_values();
        }
        value = value * 256 + src[start + i] as u64;
    }
    value
}

} // verus!
