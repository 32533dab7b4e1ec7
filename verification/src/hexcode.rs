//! Hexadecimal text of bytes, written and read.

use vstd::prelude::*;

verus! {

/// The lower-case hexadecimal digit of a value below sixteen.
pub open spec fn hex_digit(nibble: int) -> char {
    if nibble < 10 {
        (48 + nibble) as char
    } else {
        (87 + nibble) as char
    }
}

/// The hexadecimal text of `bytes`: two lower-case digits for each byte,
/// the high half first.
pub open spec fn hex_text(bytes: Seq<u8>) -> Seq<char> {
    Seq::new(
        2 * bytes.len(),
        |i: int|
            if i % 2 == 0 {
                hex_digit(bytes[i / 2] as int / 16)
            } else {
                hex_digit(bytes[i / 2] as int % 16)
            },
    )
}

/// The value of a hexadecimal digit in either case, given as its
/// character code; `None` for any other code.
pub open spec fn digit_value(code: u8) -> Option<int> {
    if 48 <= code <= 57 {
        Some(code - 48)
    } else if 97 <= code <= 102 {
        Some(code - 87)
    } else if 65 <= code <= 70 {
        Some(code - 55)
    } else {
        None
    }
}

/// Every code of `text` is a hexadecimal digit.
pub open spec fn all_hex_digits(text: Seq<u8>) -> bool {
    forall|i: int| 0 <= i < text.len() ==> digit_value(#[trigger] text[i]) is Some
}

/// The first place of `text` that holds no hexadecimal digit.
pub open spec fn first_bad_digit(text: Seq<u8>, at: int) -> bool {
    &&& 0 <= at < text.len()
    &&& digit_value(text[at]) is None
    &&& forall|i: int| 0 <= i < at ==> digit_value(#[trigger] text[i]) is Some
}

/// The bytes that a hexadecimal text of even length stands for.
pub open spec fn hex_bytes(text: Seq<u8>) -> Seq<u8> {
    Seq::new(
        text.len() / 2,
        |i: int| (digit_value(text[2 * i])->Some_0 * 16 + digit_value(text[2 * i + 1])->Some_0) as u8,
    )
}

/// Why a text is no hexadecimal text.
#[derive(Clone, Copy, Debug, PartialEq, Eq, Structural)]
pub enum HexError {
    /// The text has an odd number of digits.
    OddLength,
    /// The place `index` holds no hexadecimal digit.
    InvalidHexCharacter { index: usize },
}

/// What reading `text` as hexadecimal digits gives: the bytes, or, for a
/// text of odd length or with a character that is no digit, the reason.
/// The length is looked at first, then the digits from the left.
pub open spec fn reads_as(text: Seq<u8>, read: Result<Seq<u8>, HexError>) -> bool {
    if text.len() % 2 != 0 {
        read == Err::<Seq<u8>, HexError>(HexError::OddLength)
    } else if all_hex_digits(text) {
        read == Ok::<Seq<u8>, HexError>(hex_bytes(text))
    } else {
        read matches Err(HexError::InvalidHexCharacter { index }) && first_bad_digit(
            text,
            index as int,
        )
    }
}

/// `hex::encode`: the text of `bytes` in lower-case hexadecimal digits,
/// two for each byte, the high half first, as the crate's table of digits
/// gives them.
#[verifier::external_body]
pub(crate) fn encode(bytes: &Vec<u8>) -> (text: String)
    ensures
        text@ == hex_text(bytes@),
{
    hex::encode(bytes)
}

/// `hex::decode`: the bytes that a text of hexadecimal digits, upper or
/// lower case, stands for. The crate refuses a text of odd length before
/// it looks at any digit, and otherwise reports the first character, from
/// the left, that is no digit. Its error is handed on variant by variant;
/// the variant for a mismatched length belongs to decoding into arrays,
/// which is not done here.
#[verifier::external_body]
pub(crate) fn decode(text: &Vec<u8>) -> (read: Result<Vec<u8>, HexError>)
    ensures
        reads_as(
            text@,
            match read {
                Ok(bytes) => Ok(bytes@),
                Err(e) => Err(e),
            },
        ),
{
    match hex::decode(text) {
        Ok(bytes) => Ok(bytes),
        Err(hex::FromHexError::InvalidHexCharacter { c: _, index }) => Err(
            HexError::InvalidHexCharacter { index },
        ),
        Err(hex::FromHexError::OddLength) => Err(HexError::OddLength),
        Err(hex::FromHexError::InvalidStringLength) => Err(HexError::OddLength),
    }
}

} // verus!
