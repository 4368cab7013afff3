//! Byte offsets written in decimal or, after `0x`, in hexadecimal.

use std::num::ParseIntError;
use vstd::prelude::*;
use vstd::string::StrSliceExecFns;

verus! {

/// `std::num::ParseIntError`, the error of the standard library's integer
/// parsers, carried through as it comes.
#[verifier::external_type_specification]
#[verifier::external_body]
pub struct ExParseIntError(ParseIntError);

/// The value of a character as a digit in base `radix`: `0` to `9`, then the
/// letters of either case from ten on; `None` for any other character and
/// for a digit that the base does not have.
pub open spec fn digit_value(c: char, radix: int) -> Option<int> {
    let code = c as int;
    let value = if '0' as int <= code <= '9' as int {
        code - '0' as int
    } else if 'a' as int <= code <= 'z' as int {
        code - 'a' as int + 10
    } else if 'A' as int <= code <= 'Z' as int {
        code - 'A' as int + 10
    } else {
        radix
    };
    if value < radix {
        Some(value)
    } else {
        None
    }
}

/// Every character is a digit in base `radix`.
pub open spec fn all_digits(s: Seq<char>, radix: int) -> bool {
    forall|i: int| 0 <= i < s.len() ==> (#[trigger] digit_value(s[i], radix)).is_some()
}

/// The number that a sequence of digits denotes in base `radix`.
pub open spec fn digits_value(s: Seq<char>, radix: int) -> int
    decreases s.len(),
{
    if s.len() == 0 {
        0
    } else {
        digits_value(s.drop_last(), radix) * radix + match digit_value(s.last(), radix) {
            Some(value) => value,
            None => 0,
        }
    }
}

/// The number that an unsigned literal denotes: an optional `+`, then one or
/// more digits in base `radix` and nothing else. `None` where the text is
/// not of that form or the number is larger than `u64::MAX`.
pub open spec fn literal_value(s: Seq<char>, radix: int) -> Option<u64> {
    let digits = if s.len() > 0 && s[0] == '+' {
        s.skip(1)
    } else {
        s
    };
    if digits.len() > 0 && all_digits(digits, radix) && digits_value(digits, radix) <= u64::MAX {
        Some(digits_value(digits, radix) as u64)
    } else {
        None
    }
}

/// Whether the text begins with `0x`.
pub open spec fn has_hex_prefix(s: Seq<char>) -> bool {
    s.len() >= 2 && s[0] == '0' && s[1] == 'x'
}

/// The offset that a text denotes: a hexadecimal literal after `0x`, a
/// decimal literal otherwise.
pub open spec fn offset_value(s: Seq<char>) -> Option<u64> {
    if has_hex_prefix(s) {
        literal_value(s.skip(2), 16)
    } else {
        literal_value(s, 10)
    }
}

/// `u64::from_str_radix` of the standard library. Its documentation asks for
/// an optional `+` followed by digits only, the digits being those of
/// `0-9`, `a-z`, `A-Z` that the base has, and gives an error for anything
/// else, for an empty string and for a number that does not fit a `u64`. It
/// panics for a base outside `2..=36`.
#[verifier::external_body]
fn parse_u64(text: &str, radix: u32) -> (parsed: Result<u64, ParseIntError>)
    requires
        2 <= radix <= 36,
    ensures
        match parsed {
            Ok(value) => literal_value(text@, radix as int) == Some(value),
            Err(_) => literal_value(text@, radix as int).is_none(),
        },
{
    u64::from_str_radix(text, radix)
}

/// Reads a byte offset: hexadecimal after a leading `0x`, decimal otherwise.
pub fn parse_offset(offset_str: &str) -> (parsed: Result<u64, ParseIntError>)
    ensures
        match parsed {
            Ok(value) => offset_value(offset_str@) == Some(value),
            Err(_) => offset_value(offset_str@).is_none(),
        },
{
    let len: usize = offset_str.unicode_len();
    if len >= 2 && offset_str.get_char(0) == '0' && offset_str.get_char(1) == 'x' {
        let stripped = offset_str.substring_char(2, len);
        assert(stripped@ =~= offset_str@.skip(2));
        parse_u64(stripped, 16)
    } else {
        parse_u64(offset_str, 10)
    }
}

} // verus!
