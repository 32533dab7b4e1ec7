//! Reading the names of coins and hashes from the text of a request.

use vstd::prelude::*;
use vstd::string::StringSliceAdditionalSpecFns;
use crate::hexcode::{all_hex_digits, decode, digit_value, first_bad_digit, hex_bytes, reads_as, HexError};
use crate::structs::{CoinID, HashVal};

verus! {

/// What two characters stand for as a number in base sixteen: two digits,
/// or a plus sign and one digit.
pub open spec fn pair_value(first: u8, second: u8) -> Option<int> {
    match (digit_value(first), digit_value(second)) {
        (Some(high), Some(low)) => Some(16 * high + low),
        (None, Some(low)) => if first == 43 {
            Some(low)
        } else {
            None
        },
        _ => None,
    }
}

/// The bytes that a text stands for when every two characters, from
/// place `from` on, are read as one number in base sixteen.
pub open spec fn decoded_from(text: Seq<u8>, from: int) -> Result<Seq<u8>, HexError>
    decreases text.len() - from,
{
    if from >= text.len() {
        Ok(Seq::empty())
    } else if from + 1 == text.len() {
        Err(HexError::OddLength)
    } else {
        match pair_value(text[from], text[from + 1]) {
            None => Err(HexError::InvalidHexCharacter { index: from as usize }),
            Some(value) => match decoded_from(text, from + 2) {
                Ok(rest) => Ok(seq![value as u8] + rest),
                Err(e) => Err(e),
            },
        }
    }
}

/// `whole` is `done` followed by what is decoded from `from` on.
spec fn continues(whole: Result<Seq<u8>, HexError>, done: Seq<u8>, rest: Result<Seq<u8>, HexError>) -> bool {
    match rest {
        Ok(bytes) => whole == Ok::<Seq<u8>, HexError>(done + bytes),
        Err(e) => whole == Err::<Seq<u8>, HexError>(e),
    }
}

/// The value of a hexadecimal digit in either case.
fn digit_of(code: u8) -> (value: Option<u8>)
    ensures
        match value {
            Some(v) => digit_value(code) == Some(v as int) && v < 16,
            None => digit_value(code) is None,
        },
{
    if 48 <= code && code <= 57 {
        Some(code - 48)
    } else if 97 <= code && code <= 102 {
        Some(code - 87)
    } else if 65 <= code && code <= 70 {
        Some(code - 55)
    } else {
        None
    }
}

/// Reads a text two characters at a time, each two as one byte in base
/// sixteen. A plus sign may stand in place of the first digit of a byte.
/// The first two characters that are no such number end the reading, as
/// does a last character without a partner.
pub fn decode_hex(s: &str) -> (bytes: Result<Vec<u8>, HexError>)
    ensures
        match decoded_from(s.spec_bytes(), 0) {
            Ok(b) => bytes matches Ok(v) && v@ == b,
            Err(e) => bytes matches Err(f) && f == e,
        },
{
    let text = s.as_bytes();
    let ghost whole = decoded_from(text@, 0);
    let mut out: Vec<u8> = Vec::new();
    let mut i: usize = 0;
    assert(out@ + Seq::<u8>::empty() =~= out@);
    while i < text.len()
        invariant
            i <= text@.len(),
            whole == decoded_from(text@, 0),
            text@ == s.spec_bytes(),
            continues(whole, out@, decoded_from(text@, i as int)),
        decreases text@.len() - i,
    {
        if i + 1 == text.len() {
            return Err(HexError::OddLength);
        }
        let low = match digit_of(text[i + 1]) {
            None => {
                return Err(HexError::InvalidHexCharacter { index: i });
            },
            Some(low) => low,
        };
        let value = match digit_of(text[i]) {
            Some(high) => 16 * high + low,
            None => {
                if text[i] == 43 {
                    low
                } else {
                    return Err(HexError::InvalidHexCharacter { index: i });
                }
            },
        };
        let ghost done = out@;
        out.push(value);
        proof {
            match decoded_from(text@, i + 2) {
                Ok(rest) => {
                    assert(done + (seq![value] + rest) =~= out@ + rest);
                },
                Err(_) => {},
            }
        }
        i = i + 2;
    }
    proof {
        assert(out@ + Seq::<u8>::empty() =~= out@);
    }
    Ok(out)
}

/// What a text of decimal digits stands for, read from the left.
pub open spec fn digits_value(digits: Seq<u8>) -> Option<int>
    decreases digits.len(),
{
    if digits.len() == 0 {
        Some(0)
    } else {
        let last = digits.last();
        match digits_value(digits.drop_last()) {
            Some(value) => if 48 <= last <= 57 {
                Some(10 * value + (last - 48))
            } else {
                None
            },
            None => None,
        }
    }
}

/// The index of an output that a text names: decimal digits, at least
/// one, with or without a plus sign before them, for a number up to 255.
pub open spec fn index_value(text: Seq<u8>) -> Option<u8> {
    let digits = if text.len() > 0 && text[0] == 43 {
        text.skip(1)
    } else {
        text
    };
    if digits.len() == 0 {
        None
    } else {
        match digits_value(digits) {
            Some(value) => if value <= 255 {
                Some(value as u8)
            } else {
                None
            },
            None => None,
        }
    }
}

proof fn lemma_digits_grow(digits: Seq<u8>, n: int)
    requires
        0 <= n <= digits.len(),
    ensures
        digits_value(digits.take(n)) is None ==> digits_value(digits) is None,
        digits_value(digits) matches Some(whole) ==> digits_value(digits.take(n)) matches Some(part)
            && 0 <= part <= whole,
    decreases digits.len() - n,
{
    if n < digits.len() {
        assert(digits.take(n + 1).drop_last() =~= digits.take(n));
        lemma_digits_grow(digits, n + 1);
    } else {
        assert(digits.take(n) =~= digits);
        lemma_digits_not_negative(digits);
    }
}

proof fn lemma_digits_not_negative(digits: Seq<u8>)
    ensures
        digits_value(digits) matches Some(value) ==> value >= 0,
    decreases digits.len(),
{
    if digits.len() > 0 {
        lemma_digits_not_negative(digits.drop_last());
    }
}

/// Reads the index of an output.
fn parse_index(text: &[u8]) -> (index: Option<u8>)
    ensures
        index == index_value(text@),
{
    let start: usize = if text.len() > 0 && text[0] == 43 {
        1
    } else {
        0
    };
    if start == text.len() {
        return None;
    }
    let ghost digits = if text@.len() > 0 && text@[0] == 43 {
        text@.skip(1)
    } else {
        text@
    };
    let mut value: u32 = 0;
    let mut i: usize = start;
    assert(digits.take(0) =~= Seq::<u8>::empty());
    assert(digits =~= text@.skip(start as int));
    while i < text.len()
        invariant
            start <= i <= text@.len(),
            start < text@.len(),
            digits == text@.skip(start as int),
            digits == (if text@.len() > 0 && text@[0] == 43 {
                text@.skip(1)
            } else {
                text@
            }),
            digits_value(digits.take(i - start)) == Some(value as int),
            value <= 255,
        decreases text@.len() - i,
    {
        let code = text[i];
        proof {
            assert(digits.take(i - start + 1).drop_last() =~= digits.take(i - start));
            assert(digits.take(i - start + 1).last() == code);
            lemma_digits_grow(digits, i - start + 1);
        }
        if code < 48 || code > 57 {
            return None;
        }
        value = 10 * value + (code - 48) as u32;
        if value > 255 {
            return None;
        }
        i = i + 1;
    }
    assert(digits.take(digits.len() as int) =~= digits);
    Some(value as u8)
}

/// Why a text does not name a hash.
#[derive(Clone, Copy, Debug, PartialEq, Eq, Structural)]
pub enum HashError {
    /// The text is no hexadecimal text.
    BadHex(HexError),
    /// The text stands for more or for fewer than 32 bytes.
    WrongLength,
}

/// The hash that a text of hexadecimal digits names.
pub open spec fn hash_named(text: Seq<u8>, named: Result<HashVal, HashError>) -> bool {
    if text.len() % 2 == 0 && all_hex_digits(text) {
        if text.len() == 64 {
            named matches Ok(hash) && hash.bytes@ == hex_bytes(text)
        } else {
            named == Err::<HashVal, HashError>(HashError::WrongLength)
        }
    } else {
        named matches Err(HashError::BadHex(e)) && reads_as(text, Err(e))
    }
}

/// Reads a hash from its 64 hexadecimal digits, given as character codes.
pub fn parse_hash(text: &Vec<u8>) -> (named: Result<HashVal, HashError>)
    ensures
        hash_named(text@, named),
{
    match decode(text) {
        Err(e) => Err(HashError::BadHex(e)),
        Ok(bytes) => {
            if bytes.len() != 32 {
                return Err(HashError::WrongLength);
            }
            let mut hash = HashVal { bytes: [0u8; 32] };
            let mut i: usize = 0;
            while i < 32
                invariant
                    i <= 32,
                    bytes@.len() == 32,
                    forall|k: int| 0 <= k < i ==> hash.bytes@[k] == bytes@[k],
                decreases 32 - i,
            {
                hash.bytes[i] = bytes[i];
                i = i + 1;
            }
            assert(hash.bytes@ =~= bytes@);
            Ok(hash)
        },
    }
}

/// The text holds one dash, and holds it at place `at`.
pub open spec fn only_dash(text: Seq<u8>, at: int) -> bool {
    &&& 0 <= at < text.len()
    &&& text[at] == 45
    &&& forall|i: int| 0 <= i < text.len() && i != at ==> #[trigger] text[i] != 45
}

/// Why a text does not name a coin.
#[derive(Clone, Copy, Debug, PartialEq, Eq, Structural)]
pub enum CoinIdError {
    /// The text is not two parts with one dash between them.
    BadShape,
    /// The part before the dash names no hash.
    BadHash(HashError),
    /// The part after the dash names no index.
    BadIndex,
}

/// The coin that a text names: the hash of a transaction in hexadecimal
/// digits, a dash, and the index of an output in decimal digits. The
/// parts are looked at in this order: the shape, the hash, the index.
pub open spec fn coinid_named(text: Seq<u8>, named: Result<CoinID, CoinIdError>) -> bool {
    if exists|at: int| only_dash(text, at) {
        let at = choose|at: int| only_dash(text, at);
        let left = text.take(at);
        let right = text.skip(at + 1);
        match named {
            Ok(coinid) => hash_named(left, Ok(coinid.txhash)) && index_value(right) == Some(
                coinid.index,
            ),
            Err(CoinIdError::BadHash(e)) => hash_named(left, Err(e)),
            Err(CoinIdError::BadIndex) => left.len() == 64 && all_hex_digits(left) && index_value(
                right,
            ) is None,
            Err(CoinIdError::BadShape) => false,
        }
    } else {
        named == Err::<CoinID, CoinIdError>(CoinIdError::BadShape)
    }
}

/// Reads the name of a coin, such as `ab…ef-3`.
pub fn parse_coinid(s: &str) -> (named: Result<CoinID, CoinIdError>)
    ensures
        coinid_named(s.spec_bytes(), named),
{
    let text = s.as_bytes();
    let mut at: usize = 0;
    while at < text.len() && text[at] != 45
        invariant
            at <= text@.len(),
            forall|i: int| 0 <= i < at ==> #[trigger] text@[i] != 45,
        decreases text@.len() - at,
    {
        at = at + 1;
    }
    if at == text.len() {
        proof {
            if exists|k: int| only_dash(text@, k) {
                let k = choose|k: int| only_dash(text@, k);
                assert(text@[k] == 45);
            }
        }
        return Err(CoinIdError::BadShape);
    }
    let mut left: Vec<u8> = Vec::new();
    let mut i: usize = 0;
    while i < at
        invariant
            i <= at < text@.len(),
            left@ == text@.take(i as int),
        decreases at - i,
    {
        left.push(text[i]);
        assert(text@.take(i + 1) =~= text@.take(i as int).push(text@[i as int]));
        i = i + 1;
    }
    let mut right: Vec<u8> = Vec::new();
    let mut j: usize = at + 1;
    assert(text@.skip(at + 1).take(0) =~= Seq::<u8>::empty());
    while j < text.len()
        invariant
            at < j <= text@.len(),
            text@ == s.spec_bytes(),
            text@[at as int] == 45,
            forall|k: int| 0 <= k < at ==> #[trigger] text@[k] != 45,
            forall|k: int| at < k < j ==> #[trigger] text@[k] != 45,
            right@ == text@.skip(at + 1).take(j - at - 1),
        decreases text@.len() - j,
    {
        if text[j] == 45 {
            proof {
                if exists|k: int| only_dash(text@, k) {
                    let k = choose|k: int| only_dash(text@, k);
                    if k != at {
                        assert(text@[at as int] != 45);
                    } else {
                        assert(text@[j as int] != 45);
                    }
                }
            }
            return Err(CoinIdError::BadShape);
        }
        right.push(text[j]);
        proof {
            let rest = text@.skip(at + 1);
            assert(rest.take(j - at) =~= rest.take(j - at - 1).push(rest[j - at - 1]));
        }
        j = j + 1;
    }
    proof {
        let rest = text@.skip(at + 1);
        assert(rest.take(rest.len() as int) =~= rest);
        assert(only_dash(text@, at as int));
        let k = choose|k: int| only_dash(text@, k);
        if k != at {
            assert(text@[at as int] != 45);
        }
    }
    let txhash = match parse_hash(&left) {
        Err(e) => {
            return Err(CoinIdError::BadHash(e));
        },
        Ok(txhash) => txhash,
    };
    match parse_index(right.as_slice()) {
        None => Err(CoinIdError::BadIndex),
        Some(index) => Ok(CoinID { txhash, index }),
    }
}

} // verus!
