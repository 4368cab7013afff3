//! Bytes written as pairs of hexadecimal digits.

use hex::FromHexError;
use vstd::prelude::*;

verus! {

/// Why a text is not a run of hexadecimal byte pairs.
#[derive(Clone, Copy, Debug, PartialEq, Eq, Structural)]
pub enum DecodeError {
    /// The byte at `index` is no hexadecimal digit; `c` is that byte as a
    /// character.
    InvalidCharacter { c: char, index: usize },
    /// The text has an odd number of digits.
    OddLength,
    /// The text does not fill a container of fixed size. Decoding into a
    /// vector never gives this.
    InvalidLength,
}

/// The value of a hexadecimal digit of either case.
pub open spec fn hex_digit(b: u8) -> Option<u8> {
    if 0x30 <= b <= 0x39 {
        Some((b - 0x30) as u8)
    } else if 0x61 <= b <= 0x66 {
        Some((b - 0x61 + 10) as u8)
    } else if 0x41 <= b <= 0x46 {
        Some((b - 0x41 + 10) as u8)
    } else {
        None
    }
}

/// The first place at or after `from` that holds no hexadecimal digit, or
/// the end.
pub open spec fn first_invalid(data: Seq<u8>, from: int) -> int
    decreases data.len() - from,
{
    if 0 <= from < data.len() && hex_digit(data[from]).is_some() {
        first_invalid(data, from + 1)
    } else {
        from
    }
}

/// The byte that two hexadecimal digits denote, the first being the high
/// half.
pub open spec fn pair_value(high: u8, low: u8) -> u8 {
    match (hex_digit(high), hex_digit(low)) {
        (Some(h), Some(l)) => (h * 16 + l) as u8,
        _ => 0,
    }
}

/// The bytes that a text of digit pairs denotes.
pub open spec fn decoded(data: Seq<u8>) -> Seq<u8> {
    Seq::new(data.len() / 2, |i: int| pair_value(data[2 * i], data[2 * i + 1]))
}

/// What decoding a text gives: an error for an odd length, else an error for
/// the first byte that is no digit, else the bytes.
pub open spec fn decode_of(data: Seq<u8>) -> Result<Seq<u8>, DecodeError> {
    let at = first_invalid(data, 0);
    if data.len() % 2 != 0 {
        Err(DecodeError::OddLength)
    } else if at < data.len() {
        Err(DecodeError::InvalidCharacter { c: data[at] as char, index: at as usize })
    } else {
        Ok(decoded(data))
    }
}

/// `hex::decode`. The crate checks the length first, then turns each pair of
/// digits into a byte, the first digit being the high half, and stops at the
/// first byte that is no digit of `0-9`, `a-f` or `A-F`, which it reports
/// with its place. Its error is carried over variant by variant.
#[verifier::external_body]
fn hex_decode(data: &[u8]) -> (bytes: Result<Vec<u8>, DecodeError>)
    ensures
        match bytes {
            Ok(found) => decode_of(data@) == Ok::<Seq<u8>, DecodeError>(found@),
            Err(e) => decode_of(data@) == Err::<Seq<u8>, DecodeError>(e),
        },
{
    match hex::decode(data) {
        Ok(found) => Ok(found),
        Err(FromHexError::InvalidHexCharacter { c, index }) => Err(
            DecodeError::InvalidCharacter { c, index },
        ),
        Err(FromHexError::OddLength) => Err(DecodeError::OddLength),
        Err(FromHexError::InvalidStringLength) => Err(DecodeError::InvalidLength),
    }
}

/// Turns the hexadecimal text of a patch into the bytes to write.
pub fn decode_patch(hex_string: &[u8]) -> (bytes: Result<Vec<u8>, DecodeError>)
    ensures
        match bytes {
            Ok(found) => decode_of(hex_string@) == Ok::<Seq<u8>, DecodeError>(found@),
            Err(e) => decode_of(hex_string@) == Err::<Seq<u8>, DecodeError>(e),
        },
        bytes matches Ok(found) ==> found@.len() * 2 == hex_string@.len(),
        bytes matches Err(e) ==> e != DecodeError::InvalidLength,
{
    hex_decode(hex_string)
}

} // verus!
