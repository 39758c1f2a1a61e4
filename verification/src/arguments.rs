//! The values of arguments: numbers and colours, read from text.

use vstd::prelude::*;
use vstd::string::is_ascii;
use vstd::utf8::{encode_utf8, is_ascii_chars};

verus! {

/// The value of a decimal digit.
pub open spec fn digit_value(byte: u8) -> Option<nat> {
    if 0x30 <= byte <= 0x39 {
        Some((byte - 0x30) as nat)
    } else {
        None
    }
}

/// The number that the first `n` bytes denote, where each is a decimal
/// digit.
pub open spec fn decimal(bytes: Seq<u8>, n: nat) -> Option<nat>
    decreases n,
{
    if n == 0 || n > bytes.len() {
        Some(0nat)
    } else {
        match (decimal(bytes, (n - 1) as nat), digit_value(bytes[n - 1])) {
            (Some(value), Some(digit)) => Some(10 * value + digit),
            _ => None,
        }
    }
}

/// The digits of a number: what follows a plus sign, or all of it.
pub open spec fn unsigned_part(bytes: Seq<u8>) -> Seq<u8> {
    if bytes.len() > 0 && bytes[0] == 0x2b {
        bytes.skip(1)
    } else {
        bytes
    }
}

/// The number below 2^16 that a text denotes: decimal digits, at least
/// one, with or without a plus sign before them.
pub open spec fn number_read(bytes: Seq<u8>) -> Option<u16> {
    let digits = unsigned_part(bytes);
    if digits.len() == 0 {
        None
    } else {
        match decimal(digits, digits.len()) {
            Some(value) => if value <= u16::MAX {
                Some(value as u16)
            } else {
                None
            },
            None => None,
        }
    }
}

/// The number that a text denotes.
pub open spec fn parsed_u16(text: Seq<char>) -> Option<u16> {
    number_read(encode_utf8(text))
}

/// The colour that `hex_color::HexColor` parses from a text such as
/// `#ff8800`, as red, green and blue.
pub uninterp spec fn hex_color_of(text: Seq<char>) -> Option<(u8, u8, u8)>;

/// The colour that a text denotes. A text with a character beyond ASCII
/// denotes none.
pub open spec fn parsed_color(text: Seq<char>) -> Option<(u8, u8, u8)> {
    if is_ascii_chars(text) {
        hex_color_of(text)
    } else {
        None
    }
}

/// Calls `str::parse` for `hex_color::HexColor` and hands on red, green and
/// blue of the colour. The crate reads the text byte by byte, two at a
/// time for the long forms, so it is given ASCII only.
#[verifier::external_body]
fn hex_color(text: &str) -> (r: Option<(u8, u8, u8)>)
    requires
        is_ascii(text),
    ensures
        r == hex_color_of(text@),
{
    text.parse::<hex_color::HexColor>().ok().map(|h| (h.r, h.g, h.b))
}

/// Reads a colour from a text.
pub fn parse_color(text: &str) -> (r: Option<(u8, u8, u8)>)
    ensures
        r == parsed_color(text@),
{
    if text.is_ascii() {
        hex_color(text)
    } else {
        None
    }
}

/// More digits never make a number smaller, and digits behind something
/// that is no digit do not make a number of it.
proof fn lemma_decimal_grows(bytes: Seq<u8>, n: nat, m: nat)
    requires
        n <= m <= bytes.len(),
    ensures
        decimal(bytes, n) is None ==> decimal(bytes, m) is None,
        decimal(bytes, m) matches Some(more) ==> decimal(bytes, n) matches Some(less) && less
            <= more,
    decreases m,
{
    if n < m {
        lemma_decimal_grows(bytes, n, (m - 1) as nat);
    }
}

/// Reads a number below 2^16 from a text.
pub fn parse_u16(text: &str) -> (r: Option<u16>)
    ensures
        r == parsed_u16(text@),
{
    let bytes = text.as_bytes();
    let n: usize = bytes.len();
    let start: usize = if n > 0 && bytes[0] == 0x2b {
        1
    } else {
        0
    };
    if start == n {
        return None;
    }
    let ghost digits = unsigned_part(bytes@);
    proof {
        assert(bytes@.skip(0) =~= bytes@);
    }
    let mut value: u32 = 0;
    let mut i: usize = start;
    while i < n
        invariant
            start <= i <= n,
            start < n,
            n == bytes@.len(),
            bytes@ == encode_utf8(text@),
            digits == unsigned_part(bytes@),
            digits == bytes@.skip(start as int),
            decimal(digits, (i - start) as nat) == Some(value as nat),
            value <= u16::MAX,
        decreases n - i,
    {
        let byte: u8 = bytes[i];
        proof {
            assert(digits[i - start] == byte);
            assert(decimal(digits, (i - start + 1) as nat) == match (
                decimal(digits, (i - start) as nat),
                digit_value(byte),
            ) {
                (Some(value), Some(digit)) => Some(10 * value + digit),
                _ => None,
            });
            lemma_decimal_grows(digits, (i - start + 1) as nat, digits.len());
        }
        if byte < 0x30 || byte > 0x39 {
            return None;
        }
        value = 10 * value + (byte - 0x30) as u32;
        if value > 0xffff {
            return None;
        }
        i = i + 1;
    }
    Some(value as u16)
}

} // verus!
