//! Text conversions of the standard library used by the deserializers.
use core::str::Utf8Error;
use vstd::prelude::*;
use vstd::string::StrSliceExecFns;
use vstd::string::StringSliceAdditionalSpecFns;

verus! {

/// The error of a failed UTF-8 validation.
#[verifier::external_type_specification]
#[verifier::external_body]
pub struct ExUtf8Error(Utf8Error);

/// `core::str::from_utf8`: succeeds exactly when the bytes are valid UTF-8, and
/// then the string holds exactly those bytes.
#[verifier::external_body]
pub(crate) fn str_from_utf8<'a>(v: &'a [u8]) -> (r: Result<&'a str, Utf8Error>)
    ensures
        r is Ok <==> vstd::utf8::valid_utf8(v@),
        r matches Ok(s) ==> s.spec_bytes() == v@,
{
    core::str::from_utf8(v)
}

/// Whether `v` is a Unicode scalar value, the value of some `char`: at most
/// `0x10FFFF` and not a surrogate.
pub(crate) fn is_scalar_value(v: u32) -> (r: bool)
    ensures
        r == vstd::utf8::is_scalar(v),
{
    v <= 0x10FFFF && !(0xD800 <= v && v <= 0xDFFF)
}

/// The character of a string that holds exactly one, as `<char as FromStr>`
/// reads it; `None` for any other string.
pub(crate) fn char_from_str(s: &str) -> (r: Option<char>)
    ensures
        r is Some <==> s@.len() == 1,
        r matches Some(c) ==> c == s@[0],
{
    if s.unicode_len() == 1 {
        Some(s.get_char(0))
    } else {
        None
    }
}

} // verus!
