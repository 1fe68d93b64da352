//! The base64 digit alphabet used by the VLQ encoding: value 0 maps to 'A',
//! 25 to 'Z', 26 to 'a', 51 to 'z', 52 to '0', 61 to '9', 62 to '+', 63 to '/'.

use vstd::prelude::*;

verus! {

/// The byte of the base64 digit with the given value (0 to 63).
pub open spec fn base64_byte_of(n: int) -> u8 {
    if 0 <= n < 26 {
        (65 + n) as u8
    } else if 26 <= n < 52 {
        (97 + n - 26) as u8
    } else if 52 <= n < 62 {
        (48 + n - 52) as u8
    } else if n == 62 {
        43u8
    } else {
        47u8
    }
}

/// The character of the base64 digit with the given value (0 to 63).
pub open spec fn base64_char_of(n: int) -> char {
    base64_byte_of(n) as char
}

/// Does the byte belong to the 64-symbol alphabet?
pub open spec fn is_base64_byte(b: u8) -> bool {
    (65 <= b <= 90) || (97 <= b <= 122) || (48 <= b <= 57) || b == 43 || b == 47
}

/// The value (0 to 63) of a byte of the alphabet.
pub open spec fn base64_value_of(b: u8) -> int {
    if 65 <= b <= 90 {
        b - 65
    } else if 97 <= b <= 122 {
        b - 97 + 26
    } else if 48 <= b <= 57 {
        b - 48 + 52
    } else if b == 43 {
        62
    } else {
        63
    }
}

/// Encoding a value and reading the digit back returns the value.
pub proof fn lemma_base64_byte_roundtrip(n: int)
    requires
        0 <= n < 64,
    ensures
        is_base64_byte(base64_byte_of(n)),
        base64_value_of(base64_byte_of(n)) == n,
{
}

/// Reading a digit and re-encoding its value returns the same byte.
pub proof fn lemma_base64_value_roundtrip(b: u8)
    requires
        is_base64_byte(b),
    ensures
        0 <= base64_value_of(b) < 64,
        base64_byte_of(base64_value_of(b)) == b,
{
}

/// The byte of the base64 digit with the given value.
pub fn encode_byte(num: u8) -> (r: u8)
    requires
        num < 64,
    ensures
        r == base64_byte_of(num as int),
{
    if num < 26 {
        65 + num
    } else if num < 52 {
        97 + num - 26
    } else if num < 62 {
        48 + num - 52
    } else if num == 62 {
        43
    } else {
        47
    }
}

/// The character of the base64 digit with the given value, or `None` when the
/// value is outside the alphabet.
pub fn encode(num: i32) -> (r: Option<char>)
    ensures
        r is Some <==> 0 <= num < 64,
        0 <= num < 64 ==> r == Some(base64_char_of(num as int)),
{
    if 0 <= num && num < 64 {
        Some(encode_byte(num as u8) as char)
    } else {
        None
    }
}

/// The value of a base64 digit byte, or `None` when the byte is outside the
/// 64-symbol alphabet.
pub fn decode_byte(b: u8) -> (r: Option<u8>)
    ensures
        r is Some <==> is_base64_byte(b),
        is_base64_byte(b) ==> r == Some(base64_value_of(b) as u8),
{
    if 65 <= b && b <= 90 {
        Some(b - 65)
    } else if 97 <= b && b <= 122 {
        Some(b - 97 + 26)
    } else if 48 <= b && b <= 57 {
        Some(b - 48 + 52)
    } else if b == 43 {
        Some(62)
    } else if b == 47 {
        Some(63)
    } else {
        None
    }
}

} // verus!
