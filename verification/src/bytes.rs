//! Little-endian integers in byte sequences.

use vstd::prelude::*;
use vstd::slice::slice_subrange;

verus! {

/// 256 to the power of `width`: how many values fit in that many bytes.
pub open spec fn byte_range(width: nat) -> nat
    decreases width,
{
    if width == 0 {
        1
    } else {
        256 * byte_range((width - 1) as nat)
    }
}

/// The lowest `width` bytes of a number, least significant first.
pub open spec fn le_bytes(value: nat, width: nat) -> Seq<u8>
    decreases width,
{
    if width == 0 {
        seq![]
    } else {
        seq![(value % 256) as u8] + le_bytes(value / 256, (width - 1) as nat)
    }
}

/// The number that a byte sequence stands for, least significant byte first.
pub open spec fn le_value(bytes: Seq<u8>) -> nat
    decreases bytes.len(),
{
    if bytes.len() == 0 {
        0
    } else {
        bytes[0] as nat + 256 * le_value(bytes.skip(1))
    }
}

/// The number held by `width` bytes at `offset`.
pub open spec fn le_at(bytes: Seq<u8>, offset: int, width: int) -> nat {
    le_value(bytes.subrange(offset, offset + width))
}

/// `le_bytes` gives as many bytes as it is asked for.
pub proof fn lemma_le_bytes_len(value: nat, width: nat)
    ensures
        le_bytes(value, width).len() == width,
    decreases width,
{
    if width > 0 {
        lemma_le_bytes_len(value / 256, (width - 1) as nat);
    }
}

/// The widths in use and how many values each holds.
pub proof fn lemma_byte_ranges()
    ensures
        byte_range(1) == 0x100,
        byte_range(2) == 0x1_0000,
        byte_range(4) == 0x1_0000_0000,
        byte_range(8) == 0x1_0000_0000_0000_0000,
        forall|w: nat| w <= 8 ==> #[trigger] byte_range(w) <= 0x1_0000_0000_0000_0000,
{
    reveal_with_fuel(byte_range, 9);
    assert forall|w: nat| w <= 8 implies #[trigger] byte_range(w) <= 0x1_0000_0000_0000_0000 by {
        assert(w == 0 || w == 1 || w == 2 || w == 3 || w == 4 || w == 5 || w == 6 || w == 7 || w
            == 8);
    }
}

/// A number that fits in `width` bytes is read back from the bytes written.
pub proof fn lemma_le_round_trip(value: nat, width: nat)
    requires
        value < byte_range(width),
    ensures
        le_value(le_bytes(value, width)) == value,
    decreases width,
{
    if width > 0 {
        let rest = le_bytes(value / 256, (width - 1) as nat);
        lemma_le_round_trip(value / 256, (width - 1) as nat);
        assert(le_bytes(value, width).skip(1) =~= rest);
    }
}

/// A byte sequence stands for a number that its length can hold.
pub proof fn lemma_le_value_range(bytes: Seq<u8>)
    ensures
        le_value(bytes) < byte_range(bytes.len()),
    decreases bytes.len(),
{
    if bytes.len() > 0 {
        lemma_le_value_range(bytes.skip(1));
    }
}

/// The number that was written into a sequence is found where it was written.
pub proof fn lemma_le_at(before: Seq<u8>, value: nat, width: nat, after: Seq<u8>)
    requires
        value < byte_range(width),
    ensures
        le_at(before + le_bytes(value, width) + after, before.len() as int, width as int) == value,
{
    lemma_le_bytes_len(value, width);
    lemma_le_round_trip(value, width);
    let all = before + le_bytes(value, width) + after;
    let end = (before.len() + width) as int;
    assert(all.subrange(before.len() as int, end) =~= le_bytes(value, width));
}

/// Appends the lowest `width` bytes of a number.
fn push_le(out: &mut Vec<u8>, value: u64, width: usize)
    ensures
        final(out)@ == old(out)@ + le_bytes(value as nat, width as nat),
    decreases width,
{
    if width > 0 {
        out.push((value % 256) as u8);
        push_le(out, value / 256, width - 1);
    }
    proof {
        assert(out@ =~= old(out)@ + le_bytes(value as nat, width as nat));
    }
}

/// Reads a number of `width` bytes at `offset`.
fn read_le(bytes: &[u8], offset: usize, width: usize) -> (value: u64)
    requires
        width <= 8,
        offset + width <= bytes@.len(),
    ensures
        value == le_at(bytes@, offset as int, width as int),
        value < byte_range(width as nat),
    decreases width,
{
    proof {
        lemma_byte_ranges();
        lemma_le_value_range(bytes@.subrange(offset as int, offset + width));
    }
    if width == 0 {
        return 0;
    }
    assert(offset + width <= bytes.len());
    let rest: u64 = read_le(bytes, offset + 1, width - 1);
    proof {
        assert(byte_range(width as nat) <= 0x1_0000_0000_0000_0000);
        assert(bytes@.subrange(offset as int, offset + width).skip(1) =~= bytes@.subrange(
            offset + 1,
            offset + width,
        ));
    }
    bytes[offset] as u64 + 256 * rest
}

/// Appends the two bytes of a number.
pub fn push_u16(out: &mut Vec<u8>, value: u16)
    ensures
        final(out)@ == old(out)@ + le_bytes(value as nat, 2),
{
    push_le(out, value as u64, 2);
}

/// Appends the four bytes of a number.
pub fn push_u32(out: &mut Vec<u8>, value: u32)
    ensures
        final(out)@ == old(out)@ + le_bytes(value as nat, 4),
{
    push_le(out, value as u64, 4);
}

/// Appends the eight bytes of a number.
pub fn push_u64(out: &mut Vec<u8>, value: u64)
    ensures
        final(out)@ == old(out)@ + le_bytes(value as nat, 8),
{
    push_le(out, value, 8);
}

/// Reads the two bytes of a number.
pub fn read_u16(bytes: &[u8], offset: usize) -> (value: u16)
    requires
        offset + 2 <= bytes@.len(),
    ensures
        value == le_at(bytes@, offset as int, 2),
{
    proof {
        lemma_byte_ranges();
    }
    read_le(bytes, offset, 2) as u16
}

/// Reads the four bytes of a number.
pub fn read_u32(bytes: &[u8], offset: usize) -> (value: u32)
    requires
        offset + 4 <= bytes@.len(),
    ensures
        value == le_at(bytes@, offset as int, 4),
{
    proof {
        lemma_byte_ranges();
    }
    read_le(bytes, offset, 4) as u32
}

/// Reads the eight bytes of a number.
pub fn read_u64(bytes: &[u8], offset: usize) -> (value: u64)
    requires
        offset + 8 <= bytes@.len(),
    ensures
        value == le_at(bytes@, offset as int, 8),
{
    read_le(bytes, offset, 8)
}

/// A copy of the bytes from `start` up to `end`.
pub fn copy_range(bytes: &[u8], start: usize, end: usize) -> (out: Vec<u8>)
    requires
        start <= end <= bytes@.len(),
    ensures
        out@ == bytes@.subrange(start as int, end as int),
{
    let mut out: Vec<u8> = Vec::new();
    out.extend_from_slice(slice_subrange(bytes, start, end));
    proof {
        assert(out@ =~= bytes@.subrange(start as int, end as int));
    }
    out
}

/// A byte sequence with some bytes from `offset` on replaced.
pub open spec fn spliced(bytes: Seq<u8>, offset: int, field: Seq<u8>) -> Seq<u8> {
    bytes.take(offset) + field + bytes.skip(offset + field.len())
}

/// A copy with some bytes from `offset` on replaced.
pub fn splice(bytes: &[u8], offset: usize, field: &[u8]) -> (out: Vec<u8>)
    requires
        offset + field@.len() <= bytes@.len(),
    ensures
        out@ == spliced(bytes@, offset as int, field@),
{
    assert(offset + field.len() <= bytes.len());
    let mut out: Vec<u8> = copy_range(bytes, 0, offset);
    out.extend_from_slice(field);
    out.extend_from_slice(slice_subrange(bytes, offset + field.len(), bytes.len()));
    proof {
        assert(out@ =~= spliced(bytes@, offset as int, field@));
    }
    out
}

} // verus!
