//! Little-endian encoding of integers, through the `byteorder` crate.

use vstd::prelude::*;
use byteorder::ByteOrder;
use byteorder::BigEndian;
use byteorder::LittleEndian;

verus! {

/// Calls `byteorder`'s `LittleEndian::write_u64` on an eight-byte buffer.
/// Trusted: the buffer then holds `n` least significant byte first, which is
/// what the crate documents and what its body (`n.to_le_bytes()` copied into
/// the buffer) does.
#[verifier::external_body]
pub fn u64_le_bytes(n: u64) -> (b: Vec<u8>)
    ensures
        b@ == vstd::bytes::spec_u64_to_le_bytes(n),
{
    let mut buf = [0u8; 8];
    LittleEndian::write_u64(&mut buf, n);
    buf.to_vec()
}

/// Calls `byteorder`'s `LittleEndian::write_u32` on a four-byte buffer.
/// Trusted: the buffer then holds `n` least significant byte first.
#[verifier::external_body]
pub fn u32_le_bytes(n: u32) -> (b: Vec<u8>)
    ensures
        b@ == vstd::bytes::spec_u32_to_le_bytes(n),
{
    let mut buf = [0u8; 4];
    LittleEndian::write_u32(&mut buf, n);
    buf.to_vec()
}

/// Calls `byteorder`'s `LittleEndian::read_u64` on the eight bytes of `buf`
/// that start at `at`. Trusted: the result is those bytes read least
/// significant first (the crate's body is `u64::from_le_bytes` of them).
#[verifier::external_body]
pub fn read_u64_le(buf: &[u8], at: usize) -> (n: u64)
    requires
        at + 8 <= buf@.len(),
    ensures
        n == vstd::bytes::spec_u64_from_le_bytes(buf@.subrange(at as int, at + 8)),
{
    LittleEndian::read_u64(&buf[at..at + 8])
}

/// Calls `byteorder`'s `LittleEndian::read_u16` on the two bytes of `buf`
/// that start at `at`. Trusted: the result is those bytes read least
/// significant first (the crate's body is `u16::from_le_bytes` of them).
#[verifier::external_body]
pub fn read_u16_le(buf: &[u8], at: usize) -> (n: u16)
    requires
        at + 2 <= buf@.len(),
    ensures
        n == vstd::bytes::spec_u16_from_le_bytes(buf@.subrange(at as int, at + 2)),
{
    LittleEndian::read_u16(&buf[at..at + 2])
}

/// Calls `byteorder`'s `BigEndian::read_u16` on the two bytes of `buf` that
/// start at `at`. Trusted: the result is those bytes read most significant
/// first (the crate's body is `u16::from_be_bytes` of them).
#[verifier::external_body]
pub fn read_u16_be(buf: &[u8], at: usize) -> (n: u16)
    requires
        at + 2 <= buf@.len(),
    ensures
        n == vstd::bytes::spec_u16_from_le_bytes(seq![buf@[at + 1], buf@[at as int]]),
{
    BigEndian::read_u16(&buf[at..at + 2])
}

} // verus!
