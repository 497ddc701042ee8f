//! CRC-32, the checksum of the frames.

use vstd::prelude::*;

verus! {

/// The polynomial of CRC-32 (IEEE), lowest power in the highest bit.
pub const CRC32_POLYNOMIAL: u32 = 0xEDB8_8320;

/// The register of the division after one more bit.
pub open spec fn crc_bit(x: u32) -> u32 {
    if x & 1 == 1 {
        (x >> 1) ^ CRC32_POLYNOMIAL
    } else {
        x >> 1
    }
}

/// The register after one more byte, whose lowest bit comes first.
pub open spec fn crc_byte(x: u32, byte: u8) -> u32 {
    crc_bit(
        crc_bit(crc_bit(crc_bit(crc_bit(crc_bit(crc_bit(crc_bit(x ^ (byte as u32)))))))),
    )
}

/// The register after some bytes. It starts with all bits set.
pub open spec fn crc_register(data: Seq<u8>) -> u32
    decreases data.len(),
{
    if data.len() == 0 {
        0xFFFF_FFFF
    } else {
        crc_byte(crc_register(data.drop_last()), data.last())
    }
}

/// The CRC-32 (IEEE) checksum of a byte string: the register with all its bits
/// turned over.
#[verifier::opaque]
pub open spec fn crc32(data: Seq<u8>) -> u32 {
    crc_register(data) ^ 0xFFFF_FFFF
}

/// Calls `crc32fast::hash`, which returns the CRC-32 (IEEE) checksum of the slice,
/// whichever of its implementations the processor selects.
#[verifier::external_body]
pub(crate) fn checksum_of(data: &[u8]) -> (sum: u32)
    ensures
        sum == crc32(data@),
{
    crc32fast::hash(data)
}

/// No two registers become one by the same bit.
proof fn lemma_crc_bit(x: u32, y: u32)
    by (bit_vector)
    requires
        crc_bit(x) == crc_bit(y),
    ensures
        x == y,
{
}

/// No two registers become one by the same byte, and no two bytes bring a register
/// to the same value.
proof fn lemma_crc_byte(x: u32, y: u32, a: u8, b: u8)
    requires
        crc_byte(x, a) == crc_byte(y, b),
    ensures
        x ^ (a as u32) == y ^ (b as u32),
        a == b ==> x == y,
        x == y ==> a == b,
{
    let u = x ^ (a as u32);
    let v = y ^ (b as u32);
    let u1 = crc_bit(u);
    let v1 = crc_bit(v);
    let u2 = crc_bit(u1);
    let v2 = crc_bit(v1);
    let u3 = crc_bit(u2);
    let v3 = crc_bit(v2);
    let u4 = crc_bit(u3);
    let v4 = crc_bit(v3);
    let u5 = crc_bit(u4);
    let v5 = crc_bit(v4);
    let u6 = crc_bit(u5);
    let v6 = crc_bit(v5);
    lemma_crc_bit(crc_bit(u6), crc_bit(v6));
    lemma_crc_bit(u6, v6);
    lemma_crc_bit(u5, v5);
    lemma_crc_bit(u4, v4);
    lemma_crc_bit(u3, v3);
    lemma_crc_bit(u2, v2);
    lemma_crc_bit(u1, v1);
    lemma_crc_bit(u, v);
    assert(x ^ (a as u32) == y ^ (b as u32) && a == b ==> x == y) by (bit_vector);
    assert(x ^ (a as u32) == y ^ (b as u32) && x == y ==> a == b) by (bit_vector);
}

/// Two byte strings that differ in exactly one byte have different checksums.
pub proof fn law_checksum_tells_one_byte(data: Seq<u8>, i: int, byte: u8)
    requires
        0 <= i < data.len(),
        byte != data[i],
    ensures
        crc32(data.update(i, byte)) != crc32(data),
{
    reveal(crc32);
    lemma_registers_differ(data, i, byte);
    let x = crc_register(data);
    let y = crc_register(data.update(i, byte));
    assert(x ^ 0xFFFF_FFFF == y ^ 0xFFFF_FFFF ==> x == y) by (bit_vector);
}

proof fn lemma_registers_differ(data: Seq<u8>, i: int, byte: u8)
    requires
        0 <= i < data.len(),
        byte != data[i],
    ensures
        crc_register(data.update(i, byte)) != crc_register(data),
    decreases data.len(),
{
    let other = data.update(i, byte);
    let x = crc_register(data.drop_last());
    let y = crc_register(other.drop_last());
    if i == data.len() - 1 {
        assert(other.drop_last() =~= data.drop_last());
    } else {
        assert(other.drop_last() =~= data.drop_last().update(i, byte));
        lemma_registers_differ(data.drop_last(), i, byte);
    }
    if crc_byte(x, data.last()) == crc_byte(y, other.last()) {
        lemma_crc_byte(x, y, data.last(), other.last());
    }
}

} // verus!
