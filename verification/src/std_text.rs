//! Contracts for the few standard-library text functions the library calls
//! directly. Each states only what the function's documentation says.

use vstd::prelude::*;
use vstd::utf8::{valid_utf8, decode_utf8};

verus! {

/// `true` when `v` is a Unicode scalar value: at most `0x10FFFF` and not a
/// UTF-16 surrogate.
pub open spec fn is_scalar_value(v: int) -> bool {
    0 <= v <= 0x10FFFF && !(0xD800 <= v <= 0xDFFF)
}

/// `char::from_u32` gives the character with code point `i` when `i` is a
/// Unicode scalar value, and `None` otherwise.
pub assume_specification[ char::from_u32 ](i: u32) -> (r: Option<char>)
    ensures
        is_scalar_value(i as int) ==> r == Some(i as char),
        !is_scalar_value(i as int) ==> r is None,
;

/// `String::push` appends one character.
pub assume_specification[ String::push ](string: &mut String, ch: char)
    ensures
        final(string)@ == old(string)@.push(ch),
;

/// `core::str::Utf8Error`, carried as an opaque value.
#[verifier::external_type_specification]
#[verifier::external_body]
pub struct ExUtf8Error(core::str::Utf8Error);

/// `str::from_utf8` succeeds exactly on well-formed UTF-8, and then gives
/// the characters that the bytes encode.
pub assume_specification[ core::str::from_utf8 ](v: &[u8]) -> (r: Result<&str, core::str::Utf8Error>)
    ensures
        r is Ok <==> valid_utf8(v@),
        r matches Ok(s) ==> s@ == decode_utf8(v@),
;

} // verus!
