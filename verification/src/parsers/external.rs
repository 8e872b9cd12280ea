//! The calls that the grammar makes into code it does not prove.
use super::ParseError;
use vstd::prelude::*;
use vstd::string::StringSliceAdditionalSpecFns;
use vstd::utf8::valid_utf8;

verus! {

/// `std::str::from_utf8`: the bytes are accepted exactly when they are valid
/// UTF-8, and the string slice it returns is made of those same bytes.
#[verifier::external_body]
pub(crate) fn str_from_utf8<'a>(bytes: &'a [u8]) -> (r: Option<&'a str>)
    ensures
        r is Some <==> valid_utf8(bytes@),
        r matches Some(s) ==> s.spec_bytes() == bytes@,
{
    std::str::from_utf8(bytes).ok()
}

/// The outcome of nom's streaming float recogniser on `input`: the length of
/// the number text it recognises at the start of `input`, or why it
/// recognises none.
pub uninterp spec fn float_extent(input: Seq<u8>) -> Result<usize, ParseError>;

/// A byte that can begin a number for nom's float recogniser: a sign, a dot,
/// a digit, or the first letter of `nan` or `inf` in either case.
pub open spec fn may_start_number(c: u8) -> bool {
    c == 0x2b || c == 0x2d || c == 0x2e || (0x30 <= c <= 0x39) || c == 0x6e || c == 0x4e
        || c == 0x69 || c == 0x49
}

/// `nom::number::streaming::recognize_float_or_exceptions`, the recogniser
/// behind nom's streaming `double`: an optional sign, digits with an optional
/// fraction (or a fraction alone) and an optional exponent, or one of `nan`,
/// `inf` and `infinity` in any case. Its outcome is named by
/// [`float_extent`]. Beyond the name this states that a recognised number is
/// a non-empty prefix of the input, that an empty input asks for more, and
/// that an input whose first byte cannot begin a number is an `Error`. Which
/// other texts it recognises, and when else it asks for more input, is not
/// stated here.
#[verifier::external_body]
pub(crate) fn recognize_float(input: &[u8]) -> (r: Result<usize, ParseError>)
    ensures
        r == float_extent(input@),
        r matches Ok(n) ==> 0 < n <= input@.len(),
        input@.len() == 0 ==> (r matches Err(ParseError::Incomplete)),
        input@.len() > 0 && !may_start_number(input@[0]) ==> (r matches Err(ParseError::Error)),
{
    match nom::number::streaming::recognize_float_or_exceptions::<&[u8], ()>(input) {
        Ok((_, number)) => Ok(number.len()),
        Err(nom::Err::Incomplete(_)) => Err(ParseError::Incomplete),
        Err(nom::Err::Error(())) => Err(ParseError::Error),
        Err(nom::Err::Failure(())) => Err(ParseError::Failure),
    }
}

} // verus!

verus! {

#[verifier::external_type_specification]
#[verifier::external_body]
pub struct ExSerdeJsonValue(serde_json::Value);

/// What `serde_json` reads from the text: the one JSON value it holds, or
/// the message of the error met.
pub uninterp spec fn serde_json_parse(text: Seq<char>) -> Result<serde_json::Value, Seq<char>>;

/// `serde_json::from_str::<serde_json::Value>`, with its error given as the
/// error's message. Its outcome depends on the text alone and is named by
/// [`serde_json_parse`]; which texts it accepts, and which value or message
/// it gives, is not written out here.
#[verifier::external_body]
pub(crate) fn serde_value_from_str(text: &str) -> (r: Result<serde_json::Value, String>)
    ensures
        match r {
            Ok(v) => serde_json_parse(text@) matches Ok(w) && w == v,
            Err(m) => serde_json_parse(text@) matches Err(w) && w == m@,
        },
{
    serde_json::from_str(text).map_err(|e| e.to_string())
}

/// `String::with_capacity`: an empty string.
#[verifier::external_body]
pub(crate) fn string_with_capacity(capacity: usize) -> (r: String)
    ensures
        r@ == Seq::<char>::empty(),
{
    String::with_capacity(capacity)
}

} // verus!
