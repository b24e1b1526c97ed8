//! The primitives of the canonical binary codec.
//!
//! Integers wider than a byte are written in a variable-length form: a value
//! up to 250 is one byte; a larger one is a marker byte (251, 252 or 253)
//! followed by the value in two, four or eight bytes, least significant byte
//! first. Signed integers are folded onto the unsigned ones first, so that
//! values near zero stay short. Byte strings and texts carry their length in
//! front, an optional value carries a presence byte.
//!
//! Every encoder has a specification function that names the bytes it writes,
//! every decoder one that names the value it reads and how many bytes that
//! took; a lemma per primitive states that reading what was written gives the
//! value back.

use vstd::prelude::*;
use vstd::utf8::*;

verus! {

/// The marker in front of a two-byte integer.
pub const MARK_U16: u8 = 251;

/// The marker in front of a four-byte integer.
pub const MARK_U32: u8 = 252;

/// The marker in front of an eight-byte integer.
pub const MARK_U64: u8 = 253;

/// The largest value written as a single byte.
pub const SINGLE_BYTE_MAX: u8 = 250;

/// The two bytes of `value`, least significant first.
pub open spec fn le16_bytes(value: nat) -> Seq<u8> {
    seq![(value % 256) as u8, (value / 256 % 256) as u8]
}

/// The four bytes of `value`, least significant first.
pub open spec fn le32_bytes(value: nat) -> Seq<u8> {
    seq![
        (value % 256) as u8,
        (value / 256 % 256) as u8,
        (value / 256 / 256 % 256) as u8,
        (value / 256 / 256 / 256 % 256) as u8,
    ]
}

/// The eight bytes of `value`, least significant first.
pub open spec fn le64_bytes(value: nat) -> Seq<u8> {
    seq![
        (value % 256) as u8,
        (value / 256 % 256) as u8,
        (value / 256 / 256 % 256) as u8,
        (value / 256 / 256 / 256 % 256) as u8,
        (value / 256 / 256 / 256 / 256 % 256) as u8,
        (value / 256 / 256 / 256 / 256 / 256 % 256) as u8,
        (value / 256 / 256 / 256 / 256 / 256 / 256 % 256) as u8,
        (value / 256 / 256 / 256 / 256 / 256 / 256 / 256 % 256) as u8,
    ]
}

/// The number that two bytes spell, least significant first.
pub open spec fn le16_value(bytes: Seq<u8>) -> nat {
    (bytes[0] as nat) + 256 * (bytes[1] as nat)
}

/// The number that four bytes spell, least significant first.
pub open spec fn le32_value(bytes: Seq<u8>) -> nat {
    (bytes[0] as nat) + 256 * ((bytes[1] as nat) + 256 * ((bytes[2] as nat) + 256 * (bytes[3] as nat)))
}

/// The number that eight bytes spell, least significant first.
pub open spec fn le64_value(bytes: Seq<u8>) -> nat {
    (bytes[0] as nat) + 256 * ((bytes[1] as nat) + 256 * ((bytes[2] as nat) + 256 * ((bytes[3] as nat)
        + 256 * ((bytes[4] as nat) + 256 * ((bytes[5] as nat) + 256 * ((bytes[6] as nat) + 256 * (
    bytes[7] as nat)))))))
}

/// Two bytes spell the number they were made from.
pub proof fn lemma_le16_roundtrip(value: nat)
    requires
        value <= 0xFFFF,
    ensures
        le16_value(le16_bytes(value)) == value,
{
}

/// Four bytes spell the number they were made from.
pub proof fn lemma_le32_roundtrip(value: nat)
    requires
        value <= 0xFFFF_FFFF,
    ensures
        le32_value(le32_bytes(value)) == value,
{
}

/// Eight bytes spell the number they were made from.
pub proof fn lemma_le64_roundtrip(value: nat)
    requires
        value <= 0xFFFF_FFFF_FFFF_FFFF,
    ensures
        le64_value(le64_bytes(value)) == value,
{
}

/// Skipping twice is skipping once by the sum.
pub proof fn lemma_skip_skip(input: Seq<u8>, first: int, second: int)
    requires
        0 <= first,
        0 <= second,
        first + second <= input.len(),
    ensures
        input.skip(first).skip(second) == input.skip(first + second),
{
    assert(input.skip(first).skip(second) =~= input.skip(first + second));
}

/// Bytes joined in either grouping are the same bytes.
pub proof fn lemma_concat_assoc(first: Seq<u8>, second: Seq<u8>, third: Seq<u8>)
    ensures
        (first + second) + third == first + (second + third),
{
    assert((first + second) + third =~= first + (second + third));
}

/// Skipping what stands in front leaves what follows.
pub proof fn lemma_skip_concat(front: Seq<u8>, rest: Seq<u8>)
    ensures
        (front + rest).skip(front.len() as int) == rest,
{
    assert((front + rest).skip(front.len() as int) =~= rest);
}

/// The variable-length form of an unsigned integer.
#[verifier::opaque]
pub open spec fn varint_bytes(value: u64) -> Seq<u8> {
    if value <= 250 {
        seq![value as u8]
    } else if value <= 0xFFFF {
        seq![251u8] + le16_bytes(value as nat)
    } else if value <= 0xFFFF_FFFF {
        seq![252u8] + le32_bytes(value as nat)
    } else {
        seq![253u8] + le64_bytes(value as nat)
    }
}

/// The unsigned integer at the front of `input` and the number of bytes it
/// takes, or `None` where the input ends too early or starts with a marker
/// that stands for no integer of at most eight bytes.
#[verifier::opaque]
pub open spec fn parse_varint(input: Seq<u8>) -> Option<(u64, int)> {
    if input.len() < 1 {
        None
    } else if input[0] <= 250 {
        Some((input[0] as u64, 1))
    } else if input[0] == 251 {
        if input.len() < 3 {
            None
        } else {
            Some((le16_value(input.subrange(1, 3)) as u64, 3))
        }
    } else if input[0] == 252 {
        if input.len() < 5 {
            None
        } else {
            Some((le32_value(input.subrange(1, 5)) as u64, 5))
        }
    } else if input[0] == 253 {
        if input.len() < 9 {
            None
        } else {
            Some((le64_value(input.subrange(1, 9)) as u64, 9))
        }
    } else {
        None
    }
}

/// Reading a written unsigned integer gives it back, whatever follows it.
pub proof fn lemma_varint_roundtrip(value: u64, rest: Seq<u8>)
    ensures
        parse_varint(varint_bytes(value) + rest) == Some((value, varint_bytes(value).len() as int)),
        1 <= varint_bytes(value).len() <= 9,
{
    reveal(varint_bytes);
    reveal(parse_varint);
    let input = varint_bytes(value) + rest;
    if value <= 250 {
    } else if value <= 0xFFFF {
        assert(input.subrange(1, 3) =~= le16_bytes(value as nat));
        lemma_le16_roundtrip(value as nat);
    } else if value <= 0xFFFF_FFFF {
        assert(input.subrange(1, 5) =~= le32_bytes(value as nat));
        lemma_le32_roundtrip(value as nat);
    } else {
        assert(input.subrange(1, 9) =~= le64_bytes(value as nat));
        lemma_le64_roundtrip(value as nat);
    }
}

/// A successful read takes at least one byte and no more than there are.
pub proof fn lemma_parse_varint_bounds(input: Seq<u8>)
    ensures
        parse_varint(input) matches Some((_, taken)) ==> 1 <= taken <= input.len(),
{
    reveal(parse_varint);
}

/// Appends the variable-length form of `value` to `out`.
pub fn write_varint(out: &mut Vec<u8>, value: u64)
    ensures
        final(out)@ == old(out)@ + varint_bytes(value),
{
    reveal(varint_bytes);
    let ghost before = out@;
    if value <= 250 {
        out.push(value as u8);
        assert(out@ =~= before + varint_bytes(value));
    } else if value <= 0xFFFF {
        out.push(MARK_U16);
        out.push((value % 256) as u8);
        out.push((value / 256 % 256) as u8);
        assert(out@ =~= before + varint_bytes(value));
    } else if value <= 0xFFFF_FFFF {
        out.push(MARK_U32);
        out.push((value % 256) as u8);
        out.push((value / 256 % 256) as u8);
        out.push((value / 256 / 256 % 256) as u8);
        out.push((value / 256 / 256 / 256 % 256) as u8);
        assert(out@ =~= before + varint_bytes(value));
    } else {
        out.push(MARK_U64);
        out.push((value % 256) as u8);
        out.push((value / 256 % 256) as u8);
        out.push((value / 256 / 256 % 256) as u8);
        out.push((value / 256 / 256 / 256 % 256) as u8);
        out.push((value / 256 / 256 / 256 / 256 % 256) as u8);
        out.push((value / 256 / 256 / 256 / 256 / 256 % 256) as u8);
        out.push((value / 256 / 256 / 256 / 256 / 256 / 256 % 256) as u8);
        out.push((value / 256 / 256 / 256 / 256 / 256 / 256 / 256 % 256) as u8);
        assert(out@ =~= before + varint_bytes(value));
    }
}

/// Reads the unsigned integer that starts at `pos`, and says where the next
/// value starts.
pub fn read_varint(input: &[u8], pos: usize) -> (result: Option<(u64, usize)>)
    requires
        pos <= input.len(),
    ensures
        match parse_varint(input@.skip(pos as int)) {
            Some((value, taken)) => result == Some((value, (pos + taken) as usize)) && 1 <= taken
                && pos + taken <= input.len(),
            None => result is None,
        },
{
    reveal(parse_varint);
    let ghost tail = input@.skip(pos as int);
    let left: usize = input.len() - pos;
    if left < 1 {
        return None;
    }
    let first: u8 = input[pos];
    assert(tail[0] == first);
    if first <= SINGLE_BYTE_MAX {
        Some((first as u64, pos + 1))
    } else if first == MARK_U16 {
        if left < 3 {
            return None;
        }
        assert(tail.subrange(1, 3) =~= input@.subrange(pos + 1, pos + 3));
        let value: u64 = input[pos + 1] as u64 + 256 * (input[pos + 2] as u64);
        Some((value, pos + 3))
    } else if first == MARK_U32 {
        if left < 5 {
            return None;
        }
        assert(tail.subrange(1, 5) =~= input@.subrange(pos + 1, pos + 5));
        let value: u64 = input[pos + 1] as u64 + 256 * (input[pos + 2] as u64 + 256 * (input[pos
            + 3] as u64 + 256 * (input[pos + 4] as u64)));
        Some((value, pos + 5))
    } else if first == MARK_U64 {
        if left < 9 {
            return None;
        }
        assert(tail.subrange(1, 9) =~= input@.subrange(pos + 1, pos + 9));
        let value: u64 = input[pos + 1] as u64 + 256 * (input[pos + 2] as u64 + 256 * (input[pos
            + 3] as u64 + 256 * (input[pos + 4] as u64 + 256 * (input[pos + 5] as u64 + 256 * (
        input[pos + 6] as u64 + 256 * (input[pos + 7] as u64 + 256 * (input[pos + 8] as u64)))))));
        Some((value, pos + 9))
    } else {
        None
    }
}

/// The form of a 32-bit unsigned integer: that of the same number in 64 bits.
pub open spec fn u32_bytes(value: u32) -> Seq<u8> {
    varint_bytes(value as u64)
}

/// The 32-bit unsigned integer at the front of `input`; a larger number is
/// no such integer.
pub open spec fn parse_u32(input: Seq<u8>) -> Option<(u32, int)> {
    match parse_varint(input) {
        Some((value, taken)) => if value <= 0xFFFF_FFFF {
            Some((value as u32, taken))
        } else {
            None
        },
        None => None,
    }
}

/// A successful read takes at least one byte and no more than there are.
pub proof fn lemma_parse_u32_bounds(input: Seq<u8>)
    ensures
        parse_u32(input) matches Some((_, taken)) ==> 1 <= taken <= input.len(),
{
    lemma_parse_varint_bounds(input);
}

/// Reading a written 32-bit integer gives it back, whatever follows it.
pub proof fn lemma_u32_roundtrip(value: u32, rest: Seq<u8>)
    ensures
        parse_u32(u32_bytes(value) + rest) == Some((value, u32_bytes(value).len() as int)),
{
    lemma_varint_roundtrip(value as u64, rest);
}

/// Appends the form of a 32-bit unsigned integer to `out`.
pub fn write_u32(out: &mut Vec<u8>, value: u32)
    ensures
        final(out)@ == old(out)@ + u32_bytes(value),
{
    write_varint(out, value as u64);
}

/// Reads the 32-bit unsigned integer that starts at `pos`.
pub fn read_u32(input: &[u8], pos: usize) -> (result: Option<(u32, usize)>)
    requires
        pos <= input.len(),
    ensures
        match parse_u32(input@.skip(pos as int)) {
            Some((value, taken)) => result == Some((value, (pos + taken) as usize)) && 1 <= taken
                && pos + taken <= input.len(),
            None => result is None,
        },
{
    match read_varint(input, pos) {
        Some((value, next)) => {
            if value <= 0xFFFF_FFFF {
                Some((value as u32, next))
            } else {
                None
            }
        },
        None => None,
    }
}

/// Folds the signed integers onto the unsigned ones: 0, -1, 1, -2, 2, ...
/// become 0, 1, 2, 3, 4, ...
pub open spec fn zigzag(value: i64) -> u64 {
    if value < 0 {
        (-2 * (value as int) - 1) as u64
    } else {
        (2 * (value as int)) as u64
    }
}

/// The inverse of [`zigzag`].
pub open spec fn unzigzag(folded: u64) -> i64 {
    if folded % 2 == 0 {
        (folded / 2) as i64
    } else {
        (-((folded / 2) as int) - 1) as i64
    }
}

/// Unfolding a folded integer gives it back.
pub proof fn lemma_zigzag_roundtrip(value: i64)
    ensures
        unzigzag(zigzag(value)) == value,
{
}

/// The form of a signed integer: that of its folding.
pub open spec fn i64_bytes(value: i64) -> Seq<u8> {
    varint_bytes(zigzag(value))
}

/// The signed integer at the front of `input`.
pub open spec fn parse_i64(input: Seq<u8>) -> Option<(i64, int)> {
    match parse_varint(input) {
        Some((folded, taken)) => Some((unzigzag(folded), taken)),
        None => None,
    }
}

/// A successful read takes at least one byte and no more than there are.
pub proof fn lemma_parse_i64_bounds(input: Seq<u8>)
    ensures
        parse_i64(input) matches Some((_, taken)) ==> 1 <= taken <= input.len(),
{
    lemma_parse_varint_bounds(input);
}

/// Reading a written signed integer gives it back, whatever follows it.
pub proof fn lemma_i64_roundtrip(value: i64, rest: Seq<u8>)
    ensures
        parse_i64(i64_bytes(value) + rest) == Some((value, i64_bytes(value).len() as int)),
{
    lemma_varint_roundtrip(zigzag(value), rest);
    lemma_zigzag_roundtrip(value);
}

/// Appends the form of a signed integer to `out`.
pub fn write_i64(out: &mut Vec<u8>, value: i64)
    ensures
        final(out)@ == old(out)@ + i64_bytes(value),
{
    let folded: u64 = if value < 0 {
        let below: i64 = -(value + 1);
        2 * (below as u64) + 1
    } else {
        2 * (value as u64)
    };
    write_varint(out, folded);
}

/// Reads the signed integer that starts at `pos`.
pub fn read_i64(input: &[u8], pos: usize) -> (result: Option<(i64, usize)>)
    requires
        pos <= input.len(),
    ensures
        match parse_i64(input@.skip(pos as int)) {
            Some((value, taken)) => result == Some((value, (pos + taken) as usize)) && 1 <= taken
                && pos + taken <= input.len(),
            None => result is None,
        },
{
    match read_varint(input, pos) {
        Some((folded, next)) => {
            let half: u64 = folded / 2;
            let value: i64 = if folded % 2 == 0 {
                half as i64
            } else {
                -(half as i64) - 1
            };
            Some((value, next))
        },
        None => None,
    }
}

/// The form of a byte string: its length, then its bytes.
pub open spec fn byte_string_bytes(bytes: Seq<u8>) -> Seq<u8> {
    varint_bytes(bytes.len() as u64) + bytes
}

/// The byte string at the front of `input`: a length and as many bytes.
pub open spec fn parse_byte_string(input: Seq<u8>) -> Option<(Seq<u8>, int)> {
    match parse_varint(input) {
        Some((len, taken)) => if len <= input.len() - taken {
            Some((input.subrange(taken, taken + len), taken + len))
        } else {
            None
        },
        None => None,
    }
}

/// A successful read takes at least one byte and no more than there are.
pub proof fn lemma_parse_byte_string_bounds(input: Seq<u8>)
    ensures
        parse_byte_string(input) matches Some((bytes, taken)) ==> 1 <= taken <= input.len()
            && bytes.len() < taken,
{
    lemma_parse_varint_bounds(input);
}

/// Reading a written byte string gives it back, whatever follows it.
pub proof fn lemma_byte_string_roundtrip(bytes: Seq<u8>, rest: Seq<u8>)
    requires
        bytes.len() <= u64::MAX,
    ensures
        parse_byte_string(byte_string_bytes(bytes) + rest) == Some(
            (bytes, byte_string_bytes(bytes).len() as int),
        ),
{
    let len = bytes.len() as u64;
    let input = byte_string_bytes(bytes) + rest;
    assert(input =~= varint_bytes(len) + (bytes + rest));
    lemma_varint_roundtrip(len, bytes + rest);
    let taken = varint_bytes(len).len() as int;
    assert(input.subrange(taken, taken + len) =~= bytes);
}

/// Appends the form of a byte string to `out`.
pub fn write_byte_string(out: &mut Vec<u8>, bytes: &[u8])
    ensures
        final(out)@ == old(out)@ + byte_string_bytes(bytes@),
        bytes@.len() <= u64::MAX,
{
    let ghost before = out@;
    write_varint(out, bytes.len() as u64);
    let ghost headed = out@;
    let mut i: usize = 0;
    while i < bytes.len()
        invariant
            i <= bytes.len(),
            out@ == headed + bytes@.take(i as int),
        decreases bytes.len() - i,
    {
        out.push(bytes[i]);
        assert(bytes@.take(i + 1) =~= bytes@.take(i as int).push(bytes@[i as int]));
        assert(out@ =~= headed + bytes@.take(i + 1));
        i += 1;
    }
    assert(bytes@.take(bytes.len() as int) =~= bytes@);
    assert(out@ =~= before + byte_string_bytes(bytes@));
}

/// Reads the byte string that starts at `pos`.
pub fn read_byte_string(input: &[u8], pos: usize) -> (result: Option<(Vec<u8>, usize)>)
    requires
        pos <= input.len(),
    ensures
        match parse_byte_string(input@.skip(pos as int)) {
            Some((bytes, taken)) => result matches Some((read, next)) && read@ == bytes && next
                == pos + taken && 1 <= taken && next <= input.len(),
            None => result is None,
        },
{
    let ghost tail = input@.skip(pos as int);
    match read_varint(input, pos) {
        Some((len, start)) => {
            let left: usize = input.len() - start;
            if len > left as u64 {
                return None;
            }
            let count: usize = len as usize;
            let mut read: Vec<u8> = Vec::new();
            let mut i: usize = 0;
            while i < count
                invariant
                    i <= count,
                    start + count <= input.len(),
                    read@ == input@.subrange(start as int, start + i),
                decreases count - i,
            {
                read.push(input[start + i]);
                assert(read@ =~= input@.subrange(start as int, start + i + 1));
                i += 1;
            }
            assert(read@ =~= tail.subrange(start - pos, start - pos + len));
            Some((read, start + count))
        },
        None => None,
    }
}

/// The form of a text: its UTF-8 bytes as a byte string.
pub open spec fn string_bytes(text: Seq<char>) -> Seq<u8> {
    byte_string_bytes(encode_utf8(text))
}

/// The text at the front of `input`: a byte string that is valid UTF-8.
pub open spec fn parse_string(input: Seq<u8>) -> Option<(Seq<char>, int)> {
    match parse_byte_string(input) {
        Some((bytes, taken)) => if valid_utf8(bytes) {
            Some((decode_utf8(bytes), taken))
        } else {
            None
        },
        None => None,
    }
}

/// A successful read takes at least one byte and no more than there are.
pub proof fn lemma_parse_string_bounds(input: Seq<u8>)
    ensures
        parse_string(input) matches Some((_, taken)) ==> 1 <= taken <= input.len(),
{
    lemma_parse_byte_string_bounds(input);
}

/// Reading a written text gives it back, whatever follows it.
pub proof fn lemma_string_roundtrip(text: Seq<char>, rest: Seq<u8>)
    requires
        encode_utf8(text).len() <= u64::MAX,
    ensures
        parse_string(string_bytes(text) + rest) == Some((text, string_bytes(text).len() as int)),
{
    lemma_byte_string_roundtrip(encode_utf8(text), rest);
    encode_utf8_valid_utf8(text);
    encode_utf8_decode_utf8(text);
}

/// Appends the form of a text to `out`.
pub fn write_string(out: &mut Vec<u8>, text: &String)
    ensures
        final(out)@ == old(out)@ + string_bytes(text@),
        encode_utf8(text@).len() <= u64::MAX,
{
    let bytes: &[u8] = text.as_str().as_bytes();
    let len: usize = bytes.len();
    assert(bytes@.len() == len);
    write_byte_string(out, bytes);
}

/// `String::from_utf8` of the standard library, which turns bytes into a
/// text exactly when they are valid UTF-8; the text is then the one that the
/// bytes spell.
#[verifier::external_body]
fn text_from_utf8(bytes: Vec<u8>) -> (text: Option<String>)
    ensures
        text is Some <==> valid_utf8(bytes@),
        text matches Some(t) ==> t@ == decode_utf8(bytes@),
{
    String::from_utf8(bytes).ok()
}

/// Reads the text that starts at `pos`.
pub fn read_string(input: &[u8], pos: usize) -> (result: Option<(String, usize)>)
    requires
        pos <= input.len(),
    ensures
        match parse_string(input@.skip(pos as int)) {
            Some((text, taken)) => result matches Some((read, next)) && read@ == text && next
                == pos + taken && 1 <= taken && next <= input.len(),
            None => result is None,
        },
{
    match read_byte_string(input, pos) {
        Some((bytes, next)) => {
            match text_from_utf8(bytes) {
                Some(text) => Some((text, next)),
                None => None,
            }
        },
        None => None,
    }
}

/// The form of an optional byte string: a zero byte for none, a one byte and
/// the byte string otherwise.
pub open spec fn optional_bytes(value: Option<Seq<u8>>) -> Seq<u8> {
    match value {
        None => seq![0u8],
        Some(bytes) => seq![1u8] + byte_string_bytes(bytes),
    }
}

/// The optional byte string at the front of `input`.
pub open spec fn parse_optional_bytes(input: Seq<u8>) -> Option<(Option<Seq<u8>>, int)> {
    if input.len() < 1 {
        None
    } else if input[0] == 0 {
        Some((None, 1))
    } else if input[0] == 1 {
        match parse_byte_string(input.skip(1)) {
            Some((bytes, taken)) => Some((Some(bytes), 1 + taken)),
            None => None,
        }
    } else {
        None
    }
}

/// A successful read takes at least one byte and no more than there are.
pub proof fn lemma_parse_optional_bytes_bounds(input: Seq<u8>)
    ensures
        parse_optional_bytes(input) matches Some((_, taken)) ==> 1 <= taken <= input.len(),
{
    if input.len() >= 1 {
        lemma_parse_byte_string_bounds(input.skip(1));
    }
}

/// Reading a written optional byte string gives it back, whatever follows it.
pub proof fn lemma_optional_bytes_roundtrip(value: Option<Seq<u8>>, rest: Seq<u8>)
    requires
        value matches Some(bytes) ==> bytes.len() <= u64::MAX,
    ensures
        parse_optional_bytes(optional_bytes(value) + rest) == Some(
            (value, optional_bytes(value).len() as int),
        ),
{
    match value {
        None => {},
        Some(bytes) => {
            let input = optional_bytes(value) + rest;
            assert(input.skip(1) =~= byte_string_bytes(bytes) + rest);
            lemma_byte_string_roundtrip(bytes, rest);
        },
    }
}

/// Appends the form of an optional byte string to `out`.
pub fn write_optional_bytes(out: &mut Vec<u8>, value: &Option<Vec<u8>>)
    ensures
        final(out)@ == old(out)@ + optional_bytes(
            match *value {
                Some(bytes) => Some(bytes@),
                None => None,
            },
        ),
        *value matches Some(bytes) ==> bytes@.len() <= u64::MAX,
{
    let ghost before = out@;
    match value {
        None => {
            out.push(0);
            assert(out@ =~= before + seq![0u8]);
        },
        Some(bytes) => {
            out.push(1);
            write_byte_string(out, bytes.as_slice());
            assert(out@ =~= before + (seq![1u8] + byte_string_bytes(bytes@)));
        },
    }
}

/// Reads the optional byte string that starts at `pos`.
pub fn read_optional_bytes(input: &[u8], pos: usize) -> (result: Option<(Option<Vec<u8>>, usize)>)
    requires
        pos <= input.len(),
    ensures
        match parse_optional_bytes(input@.skip(pos as int)) {
            Some((value, taken)) => result matches Some((read, next)) && (match read {
                Some(bytes) => Some(bytes@),
                None => None,
            }) == value && next == pos + taken && 1 <= taken && next <= input.len(),
            None => result is None,
        },
{
    let ghost tail = input@.skip(pos as int);
    if input.len() - pos < 1 {
        return None;
    }
    let tag: u8 = input[pos];
    assert(tail[0] == tag);
    if tag == 0 {
        Some((None, pos + 1))
    } else if tag == 1 {
        assert(tail.skip(1) =~= input@.skip(pos + 1));
        match read_byte_string(input, pos + 1) {
            Some((bytes, next)) => Some((Some(bytes), next)),
            None => None,
        }
    } else {
        None
    }
}

/// A mathematical value with a canonical byte form.
///
/// `form` names the bytes that stand for a value, `parse` the value that
/// stands at the front of some bytes together with the number of bytes it
/// takes. The two lemmas are what makes the pair a codec: a successful parse
/// stays inside its input and takes at least one byte, and parsing the form
/// of a value gives that value back, whatever bytes follow.
pub trait Wire: Sized {
    /// Whether every length inside the value fits the field that carries it.
    /// It holds of the view of every value that exists in memory.
    spec fn encodable(self) -> bool;

    /// The bytes that stand for the value.
    spec fn form(self) -> Seq<u8>;

    /// The value at the front of `input` and the number of bytes it takes.
    spec fn parse(input: Seq<u8>) -> Option<(Self, int)>;

    /// A successful parse takes at least one byte and no more than there are.
    proof fn lemma_parse_bounds(input: Seq<u8>)
        ensures
            Self::parse(input) matches Some((_, taken)) ==> 1 <= taken <= input.len(),
    ;

    /// Parsing the form of a value gives the value back.
    proof fn lemma_roundtrip(self, rest: Seq<u8>)
        requires
            self.encodable(),
        ensures
            Self::parse(self.form() + rest) == Some((self, self.form().len() as int)),
    ;
}

/// Whether a sequence can be written: its length fits the length field and
/// so does every length inside its items.
pub open spec fn all_encodable<T: Wire>(items: Seq<T>) -> bool {
    &&& items.len() <= u64::MAX
    &&& forall|i: int| 0 <= i < items.len() ==> (#[trigger] items[i]).encodable()
}

/// The forms of the items, one after another.
pub open spec fn items_bytes<T: Wire>(items: Seq<T>) -> Seq<u8>
    decreases items.len(),
{
    if items.len() == 0 {
        Seq::empty()
    } else {
        items_bytes(items.drop_last()) + items.last().form()
    }
}

/// The first `count` items at the front of `input` and the number of bytes
/// they take together.
pub open spec fn parse_items<T: Wire>(input: Seq<u8>, count: nat) -> Option<(Seq<T>, int)>
    decreases count,
{
    if count == 0 {
        Some((Seq::empty(), 0))
    } else {
        match parse_items::<T>(input, (count - 1) as nat) {
            Some((init, taken)) => match T::parse(input.skip(taken)) {
                Some((item, more)) => Some((init.push(item), taken + more)),
                None => None,
            },
            None => None,
        }
    }
}

/// The form of a sequence: the number of its items, then their forms.
pub open spec fn sequence_bytes<T: Wire>(items: Seq<T>) -> Seq<u8> {
    varint_bytes(items.len() as u64) + items_bytes(items)
}

/// The sequence at the front of `input`: a count and as many items.
pub open spec fn parse_sequence<T: Wire>(input: Seq<u8>) -> Option<(Seq<T>, int)> {
    match parse_varint(input) {
        Some((count, taken)) => match parse_items::<T>(input.skip(taken), count as nat) {
            Some((items, more)) => Some((items, taken + more)),
            None => None,
        },
        None => None,
    }
}

/// Parsed items are as many as were asked for, each took at least one byte,
/// and together they stay inside the input.
pub proof fn lemma_parse_items_bounds<T: Wire>(input: Seq<u8>, count: nat)
    ensures
        parse_items::<T>(input, count) matches Some((items, taken)) ==> items.len() == count
            && count <= taken <= input.len(),
    decreases count,
{
    if count > 0 {
        lemma_parse_items_bounds::<T>(input, (count - 1) as nat);
        match parse_items::<T>(input, (count - 1) as nat) {
            Some((init, taken)) => {
                T::lemma_parse_bounds(input.skip(taken));
            },
            None => {},
        }
    }
}

/// Where fewer items cannot be parsed, more cannot either.
pub proof fn lemma_parse_items_stays_none<T: Wire>(input: Seq<u8>, fewer: nat, count: nat)
    requires
        fewer <= count,
        parse_items::<T>(input, fewer) is None,
    ensures
        parse_items::<T>(input, count) is None,
    decreases count,
{
    if fewer < count {
        lemma_parse_items_stays_none::<T>(input, fewer, (count - 1) as nat);
    }
}

/// A successful sequence parse stays inside its input and takes at least one byte.
pub proof fn lemma_parse_sequence_bounds<T: Wire>(input: Seq<u8>)
    ensures
        parse_sequence::<T>(input) matches Some((items, taken)) ==> 1 <= taken <= input.len()
            && items.len() <= u64::MAX && items.len() < taken,
{
    lemma_parse_varint_bounds(input);
    match parse_varint(input) {
        Some((count, taken)) => {
            lemma_parse_items_bounds::<T>(input.skip(taken), count as nat);
        },
        None => {},
    }
}

/// The items of a sequence form as the items before the last and the last.
pub proof fn lemma_items_bytes_push<T: Wire>(items: Seq<T>, item: T)
    ensures
        items_bytes(items.push(item)) == items_bytes(items) + item.form(),
{
    assert(items.push(item).drop_last() =~= items);
}

/// Parsing the forms of some items gives the items back, whatever follows.
pub proof fn lemma_items_roundtrip<T: Wire>(items: Seq<T>, rest: Seq<u8>)
    requires
        forall|i: int| 0 <= i < items.len() ==> (#[trigger] items[i]).encodable(),
    ensures
        parse_items::<T>(items_bytes(items) + rest, items.len()) == Some(
            (items, items_bytes(items).len() as int),
        ),
    decreases items.len(),
{
    let input = items_bytes(items) + rest;
    if items.len() == 0 {
        assert(parse_items::<T>(input, 0) == Some((Seq::<T>::empty(), 0int)));
        assert(items =~= Seq::<T>::empty());
    } else {
        let init = items.drop_last();
        let last = items.last();
        let tail = last.form() + rest;
        assert(input =~= items_bytes(init) + tail);
        lemma_items_roundtrip::<T>(init, tail);
        let taken = items_bytes(init).len() as int;
        assert(input.skip(taken) =~= tail);
        last.lemma_roundtrip(rest);
        assert(init.push(last) =~= items);
    }
}

/// Parsing the form of a sequence gives the sequence back, whatever follows.
pub proof fn lemma_sequence_roundtrip<T: Wire>(items: Seq<T>, rest: Seq<u8>)
    requires
        all_encodable(items),
    ensures
        parse_sequence::<T>(sequence_bytes(items) + rest) == Some(
            (items, sequence_bytes(items).len() as int),
        ),
{
    let count = items.len() as u64;
    let input = sequence_bytes(items) + rest;
    assert(input =~= varint_bytes(count) + (items_bytes(items) + rest));
    lemma_varint_roundtrip(count, items_bytes(items) + rest);
    let taken = varint_bytes(count).len() as int;
    assert(input.skip(taken) =~= items_bytes(items) + rest);
    lemma_items_roundtrip::<T>(items, rest);
}

/// The parsed value, provided that it took all `len` bytes.
pub open spec fn whole<T>(parsed: Option<(T, int)>, len: nat) -> Option<T> {
    match parsed {
        Some((value, taken)) => if taken == len {
            Some(value)
        } else {
            None
        },
        None => None,
    }
}

/// The value that `bytes` stand for as a whole: the value at their front,
/// provided that it takes all of them.
pub open spec fn decoded<T: Wire>(bytes: Seq<u8>) -> Option<T> {
    whole(T::parse(bytes), bytes.len())
}

/// The text that `bytes` stand for as a whole.
pub open spec fn decoded_text(bytes: Seq<u8>) -> Option<Seq<char>> {
    whole(parse_string(bytes), bytes.len())
}

/// The sequence that `bytes` stand for as a whole.
pub open spec fn decoded_sequence<T: Wire>(bytes: Seq<u8>) -> Option<Seq<T>> {
    whole(parse_sequence::<T>(bytes), bytes.len())
}

/// Decoding the form of a text gives the text back.
pub proof fn lemma_decode_encode_text(text: Seq<char>)
    requires
        encode_utf8(text).len() <= u64::MAX,
    ensures
        decoded_text(string_bytes(text)) == Some(text),
{
    lemma_string_roundtrip(text, Seq::empty());
    assert(string_bytes(text) + Seq::<u8>::empty() =~= string_bytes(text));
}

/// Decoding the form of a sequence gives the sequence back.
pub proof fn lemma_decode_encode_sequence<T: Wire>(items: Seq<T>)
    requires
        all_encodable(items),
    ensures
        decoded_sequence::<T>(sequence_bytes(items)) == Some(items),
{
    lemma_sequence_roundtrip::<T>(items, Seq::empty());
    assert(sequence_bytes(items) + Seq::<u8>::empty() =~= sequence_bytes(items));
}

/// Decoding the form of a value gives the value back.
pub proof fn lemma_decode_encode<T: Wire>(value: T)
    requires
        value.encodable(),
    ensures
        decoded::<T>(value.form()) == Some(value),
{
    value.lemma_roundtrip(Seq::empty());
    assert(value.form() + Seq::<u8>::empty() =~= value.form());
}

/// Values with the same form are the same value.
pub proof fn lemma_form_injective<T: Wire>(first: T, second: T)
    requires
        first.encodable(),
        second.encodable(),
        first.form() == second.form(),
    ensures
        first == second,
{
    lemma_decode_encode(first);
    lemma_decode_encode(second);
}

/// Whether two byte strings hold the same bytes.
pub fn bytes_equal(first: &[u8], second: &[u8]) -> (equal: bool)
    ensures
        equal == (first@ == second@),
{
    if first.len() != second.len() {
        return false;
    }
    let mut i: usize = 0;
    while i < first.len()
        invariant
            i <= first.len(),
            first.len() == second.len(),
            forall|j: int| 0 <= j < i ==> first@[j] == second@[j],
        decreases first.len() - i,
    {
        if first[i] != second[i] {
            return false;
        }
        i += 1;
    }
    assert(first@ =~= second@);
    true
}

} // verus!
