//! Fixed-width integers on the wire, in an explicitly chosen byte order.

use byteorder::ByteOrder;
use vstd::prelude::*;

verus! {

/// The byte order of multi-byte fields. It is always named by the caller and
/// never taken from the host.
#[derive(Clone, Copy, Debug, PartialEq, Eq, Structural)]
pub enum Endianness {
    /// Most significant byte first.
    Big,
    /// Least significant byte first.
    Little,
}

/// The two bytes of `v`, most significant first.
pub open spec fn be_bytes16(v: u16) -> Seq<u8> {
    seq![(v / 0x100) as u8, (v % 0x100) as u8]
}

/// The four bytes of `v`, most significant first.
pub open spec fn be_bytes32(v: u32) -> Seq<u8> {
    seq![
        (v / 0x100_0000) as u8,
        (v / 0x1_0000 % 0x100) as u8,
        (v / 0x100 % 0x100) as u8,
        (v % 0x100) as u8,
    ]
}

/// The wire image of a 16-bit field.
pub open spec fn u16_bytes(order: Endianness, v: u16) -> Seq<u8> {
    match order {
        Endianness::Big => be_bytes16(v),
        Endianness::Little => be_bytes16(v).reverse(),
    }
}

/// The wire image of a 32-bit field.
pub open spec fn u32_bytes(order: Endianness, v: u32) -> Seq<u8> {
    match order {
        Endianness::Big => be_bytes32(v),
        Endianness::Little => be_bytes32(v).reverse(),
    }
}

/// The 16-bit value whose big-endian image is `hi, lo`.
pub open spec fn be_value16(hi: u8, lo: u8) -> u16 {
    (hi * 0x100 + lo) as u16
}

/// Calls `byteorder::BigEndian::write_u16` on a two-byte buffer. Claimed: the
/// buffer then holds the high byte of `v` followed by its low byte.
#[verifier::external_body]
fn big_endian_u16(v: u16) -> (out: [u8; 2])
    ensures
        out@ == be_bytes16(v),
{
    let mut out = [0u8; 2];
    byteorder::BigEndian::write_u16(&mut out, v);
    out
}

/// Calls `byteorder::LittleEndian::write_u16` on a two-byte buffer. Claimed:
/// the buffer then holds the low byte of `v` followed by its high byte.
#[verifier::external_body]
fn little_endian_u16(v: u16) -> (out: [u8; 2])
    ensures
        out@ == be_bytes16(v).reverse(),
{
    let mut out = [0u8; 2];
    byteorder::LittleEndian::write_u16(&mut out, v);
    out
}

/// Calls `byteorder::BigEndian::write_u32` on a four-byte buffer. Claimed: the
/// buffer then holds the four bytes of `v` from the most significant down.
#[verifier::external_body]
fn big_endian_u32(v: u32) -> (out: [u8; 4])
    ensures
        out@ == be_bytes32(v),
{
    let mut out = [0u8; 4];
    byteorder::BigEndian::write_u32(&mut out, v);
    out
}

/// Calls `byteorder::LittleEndian::write_u32` on a four-byte buffer. Claimed:
/// the buffer then holds the four bytes of `v` from the least significant up.
#[verifier::external_body]
fn little_endian_u32(v: u32) -> (out: [u8; 4])
    ensures
        out@ == be_bytes32(v).reverse(),
{
    let mut out = [0u8; 4];
    byteorder::LittleEndian::write_u32(&mut out, v);
    out
}

/// Calls `byteorder::BigEndian::read_u16`, which panics on fewer than two
/// bytes. Claimed: the result is `256 * data[0] + data[1]`; later bytes are
/// not looked at.
#[verifier::external_body]
fn big_endian_read_u16(data: &[u8]) -> (v: u16)
    requires
        data@.len() >= 2,
    ensures
        v == be_value16(data@[0], data@[1]),
{
    byteorder::BigEndian::read_u16(data)
}

/// Appends one byte.
pub fn put_u8(buf: &mut Vec<u8>, v: u8)
    ensures
        final(buf)@ == old(buf)@.push(v),
{
    buf.push(v);
}

/// Appends the two bytes of `v` in the given order.
pub fn put_u16(buf: &mut Vec<u8>, order: Endianness, v: u16)
    ensures
        final(buf)@ == old(buf)@ + u16_bytes(order, v),
{
    let bytes = match order {
        Endianness::Big => big_endian_u16(v),
        Endianness::Little => little_endian_u16(v),
    };
    buf.push(bytes[0]);
    buf.push(bytes[1]);
}

/// Appends the four bytes of `v` in the given order.
pub fn put_u32(buf: &mut Vec<u8>, order: Endianness, v: u32)
    ensures
        final(buf)@ == old(buf)@ + u32_bytes(order, v),
{
    let bytes = match order {
        Endianness::Big => big_endian_u32(v),
        Endianness::Little => little_endian_u32(v),
    };
    buf.push(bytes[0]);
    buf.push(bytes[1]);
    buf.push(bytes[2]);
    buf.push(bytes[3]);
}

/// Reads a big-endian 16-bit field at `at`, or `None` when fewer than two
/// bytes are left there.
pub fn get_u16_be(data: &[u8], at: usize) -> (r: Option<u16>)
    ensures
        r == if at + 2 <= data@.len() {
            Some(be_value16(data@[at as int], data@[at + 1]))
        } else {
            None
        },
{
    if data.len() < 2 || at > data.len() - 2 {
        return None;
    }
    let field = vstd::slice::slice_subrange(data, at, at + 2);
    Some(big_endian_read_u16(field))
}

} // verus!
