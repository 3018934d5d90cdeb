//! Checksum of a message payload.
//!
//! It detects corruption; it does not authenticate.

use vstd::prelude::*;

verus! {

pub const FNV_OFFSET: u32 = 0x811c_9dc5;

pub const FNV_PRIME: u32 = 0x0100_0193;

/// One step of FNV-1a: mix in a byte, then multiply modulo 2^32.
pub open spec fn fnv_step(hash: u32, byte: u8) -> u32 {
    (((hash ^ byte as u32) as nat * FNV_PRIME as nat) % 0x1_0000_0000) as u32
}

/// The 32-bit FNV-1a hash of a byte sequence.
pub open spec fn fnv1a(bytes: Seq<u8>) -> u32 {
    bytes.fold_left(FNV_OFFSET, |hash: u32, byte: u8| fnv_step(hash, byte))
}

/// Computes the 32-bit FNV-1a hash.
pub fn checksum32(bytes: &[u8]) -> (hash: u32)
    ensures
        hash == fnv1a(bytes@),
{
    let mut hash: u32 = FNV_OFFSET;
    let mut i: usize = 0;
    while i < bytes.len()
        invariant
            i <= bytes@.len(),
            hash == fnv1a(bytes@.take(i as int)),
        decreases bytes@.len() - i,
    {
        proof {
            assert(bytes@.take(i + 1).drop_last() =~= bytes@.take(i as int));
        }
        hash = (hash ^ bytes[i] as u32).wrapping_mul(FNV_PRIME);
        i += 1;
    }
    proof {
        assert(bytes@.take(i as int) =~= bytes@);
    }
    hash
}

/// The number that undoes a multiplication by `FNV_PRIME` modulo 2^32.
const FNV_PRIME_INVERSE: u32 = 0x359c_449b;

/// What is lost of a product modulo 2^32 does not hide the factor: it can be undone.
proof fn lemma_multiplication_undone(x: u32)
    ensures
        (((x as nat * FNV_PRIME as nat) % 0x1_0000_0000) * FNV_PRIME_INVERSE as nat)
            % 0x1_0000_0000 == x,
{
    let m: int = 0x1_0000_0000;
    let p = FNV_PRIME as int;
    let inv = FNV_PRIME_INVERSE as int;
    let product = x as int * p;
    let q = product / m;
    let r = product % m;
    let k = (p * inv - 1) / m;
    assert(p * inv == 1 + k * m) by (nonlinear_arith)
        requires
            p == 0x0100_0193,
            inv == 0x359c_449b,
            k == (p * inv - 1) / m,
            m == 0x1_0000_0000,
    ;
    assert(product == q * m + r) by (nonlinear_arith)
        requires
            q == product / m,
            r == product % m,
            m == 0x1_0000_0000,
    ;
    assert(r * inv == x + (x * k - q * inv) * m) by (nonlinear_arith)
        requires
            x as int * p == q * m + r,
            p * inv == 1 + k * m,
    ;
    assert((x + (x * k - q * inv) * m) % m == x) by (nonlinear_arith)
        requires
            0 <= x < m,
            m == 0x1_0000_0000,
    ;
}

/// One step keeps two different hashes different.
proof fn lemma_step_keeps_apart(left: u32, right: u32, byte: u8)
    requires
        left != right,
    ensures
        fnv_step(left, byte) != fnv_step(right, byte),
{
    let b = byte as u32;
    lemma_multiplication_undone(left ^ b);
    lemma_multiplication_undone(right ^ b);
    assert(left ^ b != right ^ b) by (bit_vector)
        requires
            left != right,
    ;
}

/// One step on two different bytes gives two different hashes.
proof fn lemma_step_tells_bytes_apart(hash: u32, left: u8, right: u8)
    requires
        left != right,
    ensures
        fnv_step(hash, left) != fnv_step(hash, right),
{
    let l = left as u32;
    let r = right as u32;
    lemma_multiplication_undone(hash ^ l);
    lemma_multiplication_undone(hash ^ r);
    assert(hash ^ l != hash ^ r) by (bit_vector)
        requires
            l != r,
    ;
}

/// Changing any one byte of a sequence changes its checksum.
pub proof fn law_checksum_detects_a_changed_byte(bytes: Seq<u8>, index: int, byte: u8)
    requires
        0 <= index < bytes.len(),
        byte != bytes[index],
    ensures
        fnv1a(bytes.update(index, byte)) != fnv1a(bytes),
    decreases bytes.len(),
{
    let changed = bytes.update(index, byte);
    if index == bytes.len() - 1 {
        assert(changed.drop_last() =~= bytes.drop_last());
        lemma_step_tells_bytes_apart(fnv1a(bytes.drop_last()), bytes.last(), byte);
    } else {
        assert(changed.drop_last() =~= bytes.drop_last().update(index, byte));
        law_checksum_detects_a_changed_byte(bytes.drop_last(), index, byte);
        lemma_step_keeps_apart(
            fnv1a(bytes.drop_last()),
            fnv1a(changed.drop_last()),
            bytes.last(),
        );
    }
}

/// The hash of nothing is the offset of FNV-1a with 32 bits, and one byte more is mixed in and
/// multiplied with its prime.
pub proof fn law_checksum_goes_byte_by_byte(bytes: Seq<u8>, byte: u8)
    ensures
        fnv1a(seq![]) == 2166136261,
        fnv1a(bytes.push(byte)) == ((fnv1a(bytes) ^ byte as u32) * 16777619) % 4294967296,
{
    assert(bytes.push(byte).drop_last() =~= bytes);
    assert(bytes.push(byte).last() == byte);
}

} // verus!
