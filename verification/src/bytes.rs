//! Little-endian operands.

use byteorder::{ByteOrder, LittleEndian};
use vstd::prelude::*;
use vstd::slice::slice_subrange;

verus! {

/// The number that two bytes hold, least significant first.
pub open spec fn le_u16(bytes: Seq<u8>) -> int
    recommends
        bytes.len() >= 2,
{
    bytes[0] as int + 256 * (bytes[1] as int)
}

/// The number that four bytes hold, least significant first.
pub open spec fn le_u32(bytes: Seq<u8>) -> int
    recommends
        bytes.len() >= 4,
{
    bytes[0] as int + 256 * (bytes[1] as int) + 65536 * (bytes[2] as int) + 16777216 * (
    bytes[3] as int)
}

/// The two bytes of a number, least significant first.
pub open spec fn u16_le(x: u16) -> Seq<u8> {
    seq![(x % 256) as u8, (x / 256) as u8]
}

/// The four bytes of a number, least significant first.
pub open spec fn u32_le(x: u32) -> Seq<u8> {
    seq![
        (x % 256) as u8,
        (x / 256 % 256) as u8,
        (x / 65536 % 256) as u8,
        (x / 16777216) as u8,
    ]
}

/// `byteorder::ByteOrder::read_u16` of `byteorder::LittleEndian`: the number
/// that the first two bytes of `bytes` hold, least significant first. It
/// panics on fewer than two bytes.
#[verifier::external_body]
fn read_u16(bytes: &[u8]) -> (value: u16)
    requires
        bytes@.len() >= 2,
    ensures
        value == le_u16(bytes@),
{
    LittleEndian::read_u16(bytes)
}

/// `byteorder::ByteOrder::read_u32` of `byteorder::LittleEndian`: the number
/// that the first four bytes of `bytes` hold, least significant first. It
/// panics on fewer than four bytes.
#[verifier::external_body]
fn read_u32(bytes: &[u8]) -> (value: u32)
    requires
        bytes@.len() >= 4,
    ensures
        value == le_u32(bytes@),
{
    LittleEndian::read_u32(bytes)
}

/// The two-byte operand that starts at `at`.
pub fn read_u16_at(code: &Vec<u8>, at: usize) -> (value: u16)
    requires
        at + 2 <= code@.len(),
    ensures
        value == le_u16(code@.subrange(at as int, at + 2)),
{
    let bytes = code.as_slice();
    let _ = bytes.len();
    read_u16(slice_subrange(bytes, at, at + 2))
}

/// The four-byte operand that starts at `at`.
pub fn read_u32_at(code: &Vec<u8>, at: usize) -> (value: u32)
    requires
        at + 4 <= code@.len(),
    ensures
        value == le_u32(code@.subrange(at as int, at + 4)),
{
    let bytes = code.as_slice();
    let _ = bytes.len();
    read_u32(slice_subrange(bytes, at, at + 4))
}

/// Appends the two bytes of `x`.
pub fn push_u16(code: &mut Vec<u8>, x: u16)
    ensures
        final(code)@ == old(code)@ + u16_le(x),
{
    code.push((x % 256) as u8);
    code.push((x / 256) as u8);
    assert(code@ =~= old(code)@ + u16_le(x));
}

/// Appends the four bytes of `x`.
pub fn push_u32(code: &mut Vec<u8>, x: u32)
    ensures
        final(code)@ == old(code)@ + u32_le(x),
{
    code.push((x % 256) as u8);
    code.push((x / 256 % 256) as u8);
    code.push((x / 65536 % 256) as u8);
    code.push((x / 16777216) as u8);
    assert(code@ =~= old(code)@ + u32_le(x));
}

/// Reading gives back what was written.
pub proof fn lemma_le_round_trip(x: u32, y: u16)
    ensures
        u32_le(x).len() == 4,
        le_u32(u32_le(x)) == x,
        u16_le(y).len() == 2,
        le_u16(u16_le(y)) == y,
{
}

/// What four bytes hold fits in 32 bits, and what two hold in 16.
pub proof fn lemma_le_bounds(bytes: Seq<u8>)
    ensures
        bytes.len() >= 4 ==> 0 <= le_u32(bytes) <= u32::MAX,
        bytes.len() >= 2 ==> 0 <= le_u16(bytes) <= u16::MAX,
{
}

} // verus!
