//! Small helpers for showing and making byte strings.

use vstd::prelude::*;
use vstd::string::StrSliceExecFns;
use vstd::string::StringExecFns;

verus! {

/// The address of the machine itself, up to the port.
pub const LOCAL_HOST: &'static str = "127.0.0.1:";

/// The decimal digit for a number below ten.
pub open spec fn digit(value: int) -> char {
    if value == 0 {
        '0'
    } else if value == 1 {
        '1'
    } else if value == 2 {
        '2'
    } else if value == 3 {
        '3'
    } else if value == 4 {
        '4'
    } else if value == 5 {
        '5'
    } else if value == 6 {
        '6'
    } else if value == 7 {
        '7'
    } else if value == 8 {
        '8'
    } else {
        '9'
    }
}

/// A byte in decimal, without leading zeros.
pub open spec fn decimal(byte: u8) -> Seq<char> {
    if byte < 10 {
        seq![digit(byte as int)]
    } else if byte < 100 {
        seq![digit((byte / 10) as int), digit((byte % 10) as int)]
    } else {
        seq![digit((byte / 100) as int), digit((byte / 10 % 10) as int), digit((byte % 10) as int)]
    }
}

/// The bytes in decimal, one after another with nothing between them.
pub open spec fn decimals(bytes: Seq<u8>) -> Seq<char>
    decreases bytes.len(),
{
    if bytes.len() == 0 {
        Seq::empty()
    } else {
        decimals(bytes.drop_last()) + decimal(bytes.last())
    }
}

/// The decimal digit for a number below ten, as a text.
pub(crate) fn digit_text(value: u8) -> (text: &'static str)
    requires
        value < 10,
    ensures
        text@ == seq![digit(value as int)],
{
    proof {
        reveal_strlit("0");
        reveal_strlit("1");
        reveal_strlit("2");
        reveal_strlit("3");
        reveal_strlit("4");
        reveal_strlit("5");
        reveal_strlit("6");
        reveal_strlit("7");
        reveal_strlit("8");
        reveal_strlit("9");
    }
    let text = match value {
        0 => "0",
        1 => "1",
        2 => "2",
        3 => "3",
        4 => "4",
        5 => "5",
        6 => "6",
        7 => "7",
        8 => "8",
        _ => "9",
    };
    assert(text@ =~= seq![digit(value as int)]);
    text
}

/// Shows bytes as their decimal values, one after another with nothing
/// between them.
pub fn print_bytes(bytes: &Vec<u8>) -> (text: String)
    ensures
        text@ == decimals(bytes@),
{
    let mut text = String::new();
    let mut i: usize = 0;
    assert(bytes@.take(0) =~= Seq::empty());
    while i < bytes.len()
        invariant
            i <= bytes.len(),
            text@ == decimals(bytes@.take(i as int)),
        decreases bytes.len() - i,
    {
        let byte: u8 = bytes[i];
        let ghost shown = text@;
        if byte >= 100 {
            text.append(digit_text(byte / 100));
        }
        if byte >= 10 {
            text.append(digit_text(byte / 10 % 10));
        }
        text.append(digit_text(byte % 10));
        proof {
            assert(bytes@.take(i + 1).drop_last() =~= bytes@.take(i as int));
            assert(bytes@.take(i + 1).last() == byte);
            assert(text@ =~= shown + decimal(byte));
        }
        i += 1;
    }
    assert(bytes@.take(bytes.len() as int) =~= bytes@);
    text
}

/// The UTF-8 bytes of a text.
pub fn string_to_hash(string: &str) -> (bytes: Vec<u8>)
    ensures
        bytes@ == vstd::utf8::encode_utf8(string@),
{
    string.as_bytes_vec()
}

} // verus!
