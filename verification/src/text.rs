//! Text: `compact_str::CompactString` for event types and ids, and UTF-8
//! decoding of byte strings.

use crate::error::ParseError;
use crate::model::buffer_limit;
use compact_str::CompactString;
use vstd::prelude::*;
use vstd::string::StringSliceAdditionalSpecFns;

verus! {

#[verifier::external_type_specification]
#[verifier::external_body]
pub struct ExCompactString(CompactString);

#[verifier::external_type_specification]
#[verifier::external_body]
pub struct ExUtf8Error(core::str::Utf8Error);

/// The characters of a `CompactString`, in order.
pub uninterp spec fn compact_chars(s: CompactString) -> Seq<char>;

/// `CompactString::default`: the empty string.
#[verifier::external_body]
pub(crate) fn compact_default() -> (s: CompactString)
    ensures
        compact_chars(s) == Seq::<char>::empty(),
{
    CompactString::default()
}

/// `CompactString::from(&str)`: a string with the characters of `s`. It
/// panics only where allocating fails, which the bound on the length of `s`
/// in bytes keeps clear of the allocator's size limit.
#[verifier::external_body]
pub(crate) fn compact_from_str(s: &str) -> (r: CompactString)
    requires
        s.spec_bytes().len() <= buffer_limit(),
    ensures
        compact_chars(r) == s@,
{
    CompactString::from(s)
}

/// `CompactString::is_empty`: whether the string has length 0.
#[verifier::external_body]
pub(crate) fn compact_is_empty(s: &CompactString) -> (r: bool)
    ensures
        r == (compact_chars(*s).len() == 0),
{
    s.is_empty()
}

/// `CompactString::clear`: the string becomes empty.
#[verifier::external_body]
pub(crate) fn compact_clear(s: &mut CompactString)
    ensures
        compact_chars(*final(s)) == Seq::<char>::empty(),
{
    s.clear();
}

/// `CompactString::clone`: a string with the same characters.
pub assume_specification[ <CompactString as Clone>::clone ](s: &CompactString) -> (r: CompactString)
    ensures
        compact_chars(r) == compact_chars(*s),
;

/// `CompactString::as_str`: the characters of the string as a `&str`.
#[verifier::external_body]
pub(crate) fn compact_as_str(s: &CompactString) -> (r: &str)
    ensures
        r@ == compact_chars(*s),
{
    s.as_str()
}

/// `core::str::from_utf8`: succeeds exactly on valid UTF-8, and the string
/// it returns is made of the given bytes, as its documentation states.
#[verifier::external_body]
fn str_from_utf8(bytes: &[u8]) -> (r: Result<&str, core::str::Utf8Error>)
    ensures
        r is Ok <==> vstd::utf8::valid_utf8(bytes@),
        r matches Ok(s) ==> s.spec_bytes() == bytes@,
{
    core::str::from_utf8(bytes)
}

/// `bytes` as text, or the error that the value of `field` is not UTF-8.
pub fn decode_utf8<'a>(bytes: &'a [u8], field: &str) -> (r: Result<&'a str, ParseError>)
    ensures
        match r {
            Ok(s) => {
                &&& vstd::utf8::valid_utf8(bytes@)
                &&& s@ == vstd::utf8::decode_utf8(bytes@)
                &&& s.spec_bytes() == bytes@
            },
            Err(e) => !vstd::utf8::valid_utf8(bytes@) && e.field_view() == field@,
        },
{
    match str_from_utf8(bytes) {
        Ok(s) => {
            proof {
                vstd::utf8::encode_utf8_decode_utf8(s@);
            }
            Ok(s)
        },
        Err(_) => Err(ParseError::invalid_utf8(field)),
    }
}

} // verus!
