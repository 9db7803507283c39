//! The classes of bytes that the tokenizer tells apart, in a table of flags.

use vstd::prelude::*;

verus! {

/// Flag bit of a byte that is whitespace between tokens.
pub const FLAG_WS: u8 = 4;

/// Flag bit of a decimal digit.
pub const FLAG_DIGIT: u8 = 2;

/// Flag bit of a byte that ends a run of plain text inside a string: the
/// quote and the backslash.
pub const FLAG_NOT_TEXT: u8 = 1;

/// Class flags of each byte value.
pub const CHAR_FLAGS: [u8; 256] = [
    0, 0, 0, 0, 0, 0, 0, 0, 4, 4, 4, 0, 0, 4, 0, 0,
    0, 0, 0, 0, 0, 0, 0, 0, 0, 0, 0, 0, 0, 0, 0, 0,
    4, 0, 1, 0, 0, 0, 0, 0, 0, 0, 0, 0, 0, 0, 0, 0,
    2, 2, 2, 2, 2, 2, 2, 2, 2, 2, 0, 0, 0, 0, 0, 0,
    0, 0, 0, 0, 0, 0, 0, 0, 0, 0, 0, 0, 0, 0, 0, 0,
    0, 0, 0, 0, 0, 0, 0, 0, 0, 0, 0, 0, 1, 0, 0, 0,
    0, 0, 0, 0, 0, 0, 0, 0, 0, 0, 0, 0, 0, 0, 0, 0,
    0, 0, 0, 0, 0, 0, 0, 0, 0, 0, 0, 0, 0, 0, 0, 0,
    0, 0, 0, 0, 0, 0, 0, 0, 0, 0, 0, 0, 0, 0, 0, 0,
    0, 0, 0, 0, 0, 0, 0, 0, 0, 0, 0, 0, 0, 0, 0, 0,
    0, 0, 0, 0, 0, 0, 0, 0, 0, 0, 0, 0, 0, 0, 0, 0,
    0, 0, 0, 0, 0, 0, 0, 0, 0, 0, 0, 0, 0, 0, 0, 0,
    0, 0, 0, 0, 0, 0, 0, 0, 0, 0, 0, 0, 0, 0, 0, 0,
    0, 0, 0, 0, 0, 0, 0, 0, 0, 0, 0, 0, 0, 0, 0, 0,
    0, 0, 0, 0, 0, 0, 0, 0, 0, 0, 0, 0, 0, 0, 0, 0,
    0, 0, 0, 0, 0, 0, 0, 0, 0, 0, 0, 0, 0, 0, 0, 0,
];

/// Whitespace between tokens: backspace, tab, line feed, carriage return, space.
pub open spec fn whitespace_byte(c: u8) -> bool {
    c == 8 || c == 9 || c == 10 || c == 13 || c == 32
}

/// The decimal digits `0` to `9`.
pub open spec fn digit_byte(c: u8) -> bool {
    0x30 <= c <= 0x39
}

/// The quote and the backslash.
pub open spec fn not_text_byte(c: u8) -> bool {
    c == 0x22 || c == 0x5c
}

/// The flags that the table holds for a byte.
pub open spec fn class_flags(c: u8) -> u8 {
    if whitespace_byte(c) {
        FLAG_WS
    } else if digit_byte(c) {
        FLAG_DIGIT
    } else if not_text_byte(c) {
        FLAG_NOT_TEXT
    } else {
        0
    }
}

/// Every entry of the table is the flag set of its index.
pub proof fn table_holds_class_flags()
    ensures
        forall|c: u8| #[trigger] CHAR_FLAGS[c as int] == class_flags(c),
{
}

/// How each flag bit reads off the four flag sets that the table holds.
proof fn flag_bits()
    ensures
        4u8 & 4 == 4 && 2u8 & 4 != 4 && 1u8 & 4 != 4 && 0u8 & 4 != 4,
        4u8 & 2 != 2 && 2u8 & 2 == 2 && 1u8 & 2 != 2 && 0u8 & 2 != 2,
        4u8 & 1 != 1 && 2u8 & 1 != 1 && 1u8 & 1 == 1 && 0u8 & 1 != 1,
{
    assert(4u8 & 4 == 4 && 2u8 & 4 != 4 && 1u8 & 4 != 4 && 0u8 & 4 != 4) by (bit_vector);
    assert(4u8 & 2 != 2 && 2u8 & 2 == 2 && 1u8 & 2 != 2 && 0u8 & 2 != 2) by (bit_vector);
    assert(4u8 & 1 != 1 && 2u8 & 1 != 1 && 1u8 & 1 == 1 && 0u8 & 1 != 1) by (bit_vector);
}

/// Is the byte a digit
#[inline]
pub fn is_digit(c: u8) -> (r: bool)
    ensures
        r == digit_byte(c),
{
    proof {
        table_holds_class_flags();
        flag_bits();
    }
    CHAR_FLAGS[c as usize] & FLAG_DIGIT == FLAG_DIGIT
}

/// Is the byte whitespace
#[inline]
pub fn is_whitespace(c: u8) -> (r: bool)
    ensures
        r == whitespace_byte(c),
{
    proof {
        table_holds_class_flags();
        flag_bits();
    }
    CHAR_FLAGS[c as usize] & FLAG_WS == FLAG_WS
}

/// Does the byte end a run of plain text inside a string
#[inline]
pub fn is_not_text(c: u8) -> (r: bool)
    ensures
        r == not_text_byte(c),
{
    proof {
        table_holds_class_flags();
        flag_bits();
    }
    CHAR_FLAGS[c as usize] & FLAG_NOT_TEXT == FLAG_NOT_TEXT
}

} // verus!
