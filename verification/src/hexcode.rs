//! Hexadecimal text: what it means for a string to be hex, what bytes it
//! stands for, and the two calls into the `hex` crate that do the work.

use vstd::prelude::*;

verus! {

/// The lower-case hex digit for a value below 16.
pub open spec fn nibble_char(n: int) -> char {
    if n < 10 {
        ((n + 48) as u8) as char
    } else {
        ((n + 87) as u8) as char
    }
}

/// Whether `c` is one of `0-9`, `a-f`, `A-F`.
pub open spec fn is_hex_char(c: char) -> bool {
    let v = c as int;
    (48 <= v <= 57) || (97 <= v <= 102) || (65 <= v <= 70)
}

/// The value of a hex digit, in either case.
pub open spec fn nibble_value(c: char) -> int {
    let v = c as int;
    if 48 <= v <= 57 {
        v - 48
    } else if 97 <= v <= 102 {
        v - 87
    } else {
        v - 55
    }
}

/// A string is hex when it has an even number of characters and each is a
/// hex digit.
pub open spec fn is_hex(text: Seq<char>) -> bool {
    &&& text.len() % 2 == 0
    &&& forall|i: int| 0 <= i < text.len() ==> is_hex_char(#[trigger] text[i])
}

/// The bytes that a hex string stands for: two digits per byte, high digit
/// first.
pub open spec fn hex_decode(text: Seq<char>) -> Seq<u8> {
    Seq::new(
        text.len() / 2,
        |i: int| (16 * nibble_value(text[2 * i]) + nibble_value(text[2 * i + 1])) as u8,
    )
}

/// The lower-case hex string of a byte sequence.
pub open spec fn hex_encode(bytes: Seq<u8>) -> Seq<char> {
    Seq::new(
        2 * bytes.len(),
        |i: int|
            if i % 2 == 0 {
                nibble_char(bytes[i / 2] as int / 16)
            } else {
                nibble_char(bytes[i / 2] as int % 16)
            },
    )
}

/// Encoding yields hex text, and decoding that text gives the bytes back.
pub proof fn lemma_encode_decode(bytes: Seq<u8>)
    ensures
        is_hex(hex_encode(bytes)),
        hex_encode(bytes).len() == 2 * bytes.len(),
        hex_decode(hex_encode(bytes)) == bytes,
{
    let text = hex_encode(bytes);
    assert forall|i: int| 0 <= i < text.len() implies is_hex_char(#[trigger] text[i]) by {
        let b = bytes[i / 2] as int;
        assert(0 <= b / 16 < 16 && 0 <= b % 16 < 16);
    }
    assert forall|i: int| 0 <= i < bytes.len() implies hex_decode(text)[i] == bytes[i] by {
        let b = bytes[i] as int;
        assert((2 * i) / 2 == i && (2 * i + 1) / 2 == i);
        assert((2 * i) % 2 == 0 && (2 * i + 1) % 2 == 1);
        assert(0 <= b / 16 < 16 && 0 <= b % 16 < 16);
        assert(nibble_value(nibble_char(b / 16)) == b / 16);
        assert(nibble_value(nibble_char(b % 16)) == b % 16);
        assert(16 * (b / 16) + b % 16 == b);
    }
    assert(hex_decode(text) =~= bytes);
}

/// Two byte sequences with the same hex string are the same.
pub proof fn lemma_encode_injective(a: Seq<u8>, b: Seq<u8>)
    requires
        hex_encode(a) == hex_encode(b),
    ensures
        a == b,
{
    lemma_encode_decode(a);
    lemma_encode_decode(b);
}

#[verifier::external_type_specification]
#[verifier::external_body]
pub struct ExFromHexError(::hex::FromHexError);

/// Calls `hex::encode`. Trusted: the result is the lower-case hex string of
/// `data`, two digits per byte, high digit first.
#[verifier::external_body]
pub(crate) fn encode(data: &[u8]) -> (text: String)
    ensures
        text@ == hex_encode(data@),
{
    ::hex::encode(data)
}

/// Calls `hex::decode`. Trusted: it succeeds exactly on strings of even
/// length made of hex digits of either case, and then returns one byte per
/// pair of digits, high digit first.
#[verifier::external_body]
pub(crate) fn decode(text: &str) -> (outcome: Result<Vec<u8>, ::hex::FromHexError>)
    ensures
        outcome is Ok <==> is_hex(text@),
        outcome matches Ok(bytes) ==> bytes@ == hex_decode(text@),
{
    ::hex::decode(text)
}

/// The bytes of a hex string, or `None` when the string is not hex.
pub fn decode_hex(text: &str) -> (bytes: Option<Vec<u8>>)
    ensures
        bytes is Some <==> is_hex(text@),
        bytes matches Some(b) ==> b@ == hex_decode(text@),
{
    match decode(text) {
        Ok(b) => Some(b),
        Err(_) => None,
    }
}

/// The lower-case hex string of `data`.
pub fn encode_hex(data: &[u8]) -> (text: String)
    ensures
        text@ == hex_encode(data@),
        is_hex(text@),
        text@.len() == 2 * data@.len(),
        hex_decode(text@) == data@,
{
    proof {
        lemma_encode_decode(data@);
    }
    encode(data)
}

} // verus!
