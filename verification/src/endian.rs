//! Fixed-width integers in network byte order, as the frame headers of the
//! two wire protocols carry them.

use byteorder::ByteOrder;
use vstd::prelude::*;
use vstd::slice::slice_subrange;

verus! {

/// The four bytes of `value`, most significant first.
pub open spec fn be32_bytes(value: u32) -> Seq<u8> {
    seq![
        (value / 256 / 256 / 256 % 256) as u8,
        (value / 256 / 256 % 256) as u8,
        (value / 256 % 256) as u8,
        (value % 256) as u8,
    ]
}

/// The number that four bytes spell, most significant first.
pub open spec fn be32_value(bytes: Seq<u8>) -> u32 {
    ((((bytes[0] as nat) * 256 + (bytes[1] as nat)) * 256 + (bytes[2] as nat)) * 256 + (
    bytes[3] as nat)) as u32
}

/// The eight bytes of `value`, most significant first.
pub open spec fn be64_bytes(value: u64) -> Seq<u8> {
    seq![
        (value / 256 / 256 / 256 / 256 / 256 / 256 / 256 % 256) as u8,
        (value / 256 / 256 / 256 / 256 / 256 / 256 % 256) as u8,
        (value / 256 / 256 / 256 / 256 / 256 % 256) as u8,
        (value / 256 / 256 / 256 / 256 % 256) as u8,
        (value / 256 / 256 / 256 % 256) as u8,
        (value / 256 / 256 % 256) as u8,
        (value / 256 % 256) as u8,
        (value % 256) as u8,
    ]
}

/// The number that eight bytes spell, most significant first.
pub open spec fn be64_value(bytes: Seq<u8>) -> u64 {
    ((((((((bytes[0] as nat) * 256 + (bytes[1] as nat)) * 256 + (bytes[2] as nat)) * 256 + (
    bytes[3] as nat)) * 256 + (bytes[4] as nat)) * 256 + (bytes[5] as nat)) * 256 + (
    bytes[6] as nat)) * 256 + (bytes[7] as nat)) as u64
}

/// Four bytes spell the number they were made from.
pub proof fn lemma_be32_roundtrip(value: u32)
    ensures
        be32_bytes(value).len() == 4,
        be32_value(be32_bytes(value)) == value,
{
}

/// Eight bytes spell the number they were made from.
pub proof fn lemma_be64_roundtrip(value: u64)
    ensures
        be64_bytes(value).len() == 8,
        be64_value(be64_bytes(value)) == value,
{
}

/// Appends the four bytes of `value`, most significant first.
pub fn write_be32(out: &mut Vec<u8>, value: u32)
    ensures
        final(out)@ == old(out)@ + be32_bytes(value),
{
    let ghost before = out@;
    out.push((value / 256 / 256 / 256 % 256) as u8);
    out.push((value / 256 / 256 % 256) as u8);
    out.push((value / 256 % 256) as u8);
    out.push((value % 256) as u8);
    assert(out@ =~= before + be32_bytes(value));
}

/// Reads the four bytes at `pos`, most significant first.
pub fn read_be32(input: &[u8], pos: usize) -> (value: u32)
    requires
        pos + 4 <= input.len(),
    ensures
        value == be32_value(input@.subrange(pos as int, pos + 4)),
{
    let b0: u32 = input[pos] as u32;
    let b1: u32 = input[pos + 1] as u32;
    let b2: u32 = input[pos + 2] as u32;
    let b3: u32 = input[pos + 3] as u32;
    ((b0 * 256 + b1) * 256 + b2) * 256 + b3
}

/// Appends the eight bytes of `value`, most significant first.
pub fn write_be64(out: &mut Vec<u8>, value: u64)
    ensures
        final(out)@ == old(out)@ + be64_bytes(value),
{
    let ghost before = out@;
    out.push((value / 256 / 256 / 256 / 256 / 256 / 256 / 256 % 256) as u8);
    out.push((value / 256 / 256 / 256 / 256 / 256 / 256 % 256) as u8);
    out.push((value / 256 / 256 / 256 / 256 / 256 % 256) as u8);
    out.push((value / 256 / 256 / 256 / 256 % 256) as u8);
    out.push((value / 256 / 256 / 256 % 256) as u8);
    out.push((value / 256 / 256 % 256) as u8);
    out.push((value / 256 % 256) as u8);
    out.push((value % 256) as u8);
    assert(out@ =~= before + be64_bytes(value));
}

/// Reads a number with `byteorder`'s `BigEndian::read_u64`, which takes the
/// first eight bytes of `buf`, most significant first, and panics on a
/// shorter buffer.
#[verifier::external_body]
fn big_endian_u64(buf: &[u8]) -> (value: u64)
    requires
        buf@.len() >= 8,
    ensures
        value == be64_value(buf@.subrange(0, 8)),
{
    byteorder::BigEndian::read_u64(buf)
}

/// Reads the eight bytes at `pos`, most significant first.
pub fn read_be64(input: &[u8], pos: usize) -> (value: u64)
    requires
        pos + 8 <= input.len(),
    ensures
        value == be64_value(input@.subrange(pos as int, pos + 8)),
{
    let field = slice_subrange(input, pos, pos + 8);
    assert(field@.subrange(0, 8) =~= input@.subrange(pos as int, pos + 8));
    big_endian_u64(field)
}

} // verus!
