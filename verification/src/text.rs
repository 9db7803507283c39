//! Text as UTF-8 bytes: checking a byte buffer as text, and writing a scalar
//! value as bytes.

use vstd::prelude::*;
use vstd::string::*;
use vstd::utf8::*;

verus! {

/// The error of a failed UTF-8 check, as the standard library defines it.
#[verifier::external_type_specification]
#[verifier::external_body]
pub struct ExUtf8Error(core::str::Utf8Error);

/// `core::str::from_utf8` checks that the bytes are valid UTF-8 and, where
/// they are, returns them as text: a string slice of exactly those bytes.
/// Where they are not, it returns an error.
pub assume_specification<'a>[ core::str::from_utf8 ](v: &'a [u8]) -> (r: Result<
    &'a str,
    core::str::Utf8Error,
>)
    ensures
        r is Ok <==> valid_utf8(v@),
        r is Ok ==> r->Ok_0.spec_bytes() == v@,
;

/// `String::push` appends the given `char` to the end of the string.
pub assume_specification[ std::string::String::push ](s: &mut std::string::String, c: char)
    ensures
        final(s)@ == old(s)@.push(c),
;

/// Bytes below 128 are text as they stand.
pub proof fn lemma_ascii_is_utf8(bytes: Seq<u8>)
    requires
        forall|i: int| 0 <= i < bytes.len() ==> #[trigger] bytes[i] < 0x80,
    ensures
        valid_utf8(bytes),
{
    let chars = Seq::new(bytes.len(), |i: int| bytes[i] as char);
    assert(is_ascii_chars(chars));
    is_ascii_chars_encode_utf8(chars);
    assert(encode_utf8(chars) =~= bytes);
    encode_utf8_valid_utf8(chars);
}

/// Appends the UTF-8 encoding of one scalar value to `buf`.
pub fn push_scalar(buf: &mut Vec<u8>, scalar: u32)
    requires
        is_scalar(scalar),
    ensures
        final(buf)@ == old(buf)@ + encode_scalar(scalar),
{
    if scalar <= 0x7F {
        buf.push((scalar & 0x7F) as u8);
    } else if scalar <= 0x7FF {
        buf.push(0xC0 | ((scalar >> 6) & 0x1F) as u8);
        buf.push(0x80 | (scalar & 0x3F) as u8);
    } else if scalar <= 0xFFFF {
        buf.push(0xE0 | ((scalar >> 12) & 0x0F) as u8);
        buf.push(0x80 | ((scalar >> 6) & 0x3F) as u8);
        buf.push(0x80 | (scalar & 0x3F) as u8);
    } else {
        buf.push(0xF0 | ((scalar >> 18) & 0x7) as u8);
        buf.push(0x80 | ((scalar >> 12) & 0x3F) as u8);
        buf.push(0x80 | ((scalar >> 6) & 0x3F) as u8);
        buf.push(0x80 | (scalar & 0x3F) as u8);
    }
    assert(buf@ =~= old(buf)@ + encode_scalar(scalar));
}

} // verus!
