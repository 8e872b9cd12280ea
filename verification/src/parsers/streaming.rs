//! The streaming JSON grammar. Each parser reads a prefix of its input and
//! asks for more input (`Incomplete`) whenever the bytes it has seen do not
//! yet decide the outcome.
use super::external::{float_extent, may_start_number, recognize_float, str_from_utf8};
use crate::json_value::{
    collect_entries, collect_spec, keys_distinct, lemma_collect_keys_distinct, entries_models, lemma_array_model, lemma_object_model,
    values_models, Json, JsonValue,
};
use super::primitives::{
    byte, first_stop, is_first_stop, is_space, lemma_byte_bound, lemma_exists_first_stop,
    lemma_byte_decided, lemma_first_stop, lemma_skip_append, lemma_skip_skip, lemma_tag_bound,
    lemma_tag_decided, lemma_take_until_bound, lemma_take_until_decided, one_of, spec_byte,
    spec_one_of, spec_tag, spec_take_until, spec_take_until1, split, tag, take_until, take_until1,
    Stop,
};
use super::{
    agrees, agrees_by, alt, cut, cut_error, is_decided, map_ok, PResult, ParseError, SpecResult,
};
use vstd::prelude::*;
use vstd::slice::slice_to_vec;
use vstd::string::StringExecFns;
use vstd::string::StringSliceAdditionalSpecFns;
use vstd::utf8::{decode_utf8, encode_utf8_decode_utf8, valid_utf8};

verus! {

pub const QUOTE: u8 = 0x22;

pub const BACKSLASH: u8 = 0x5c;

pub const COMMA: u8 = 0x2c;

pub const COLON: u8 = 0x3a;

pub const LBRACKET: u8 = 0x5b;

pub const RBRACKET: u8 = 0x5d;

pub const LBRACE: u8 = 0x7b;

pub const RBRACE: u8 = 0x7d;

pub open spec fn null_bytes() -> Seq<u8> {
    seq![0x6eu8, 0x75, 0x6c, 0x6c]
}

pub open spec fn true_bytes() -> Seq<u8> {
    seq![0x74u8, 0x72, 0x75, 0x65]
}

pub open spec fn false_bytes() -> Seq<u8> {
    seq![0x66u8, 0x61, 0x6c, 0x73, 0x65]
}

/// The bytes that may follow a backslash: `"`, `n` and `\`.
pub open spec fn escapable_bytes() -> Seq<u8> {
    seq![0x22u8, 0x6e, 0x5c]
}

/// Spaces, tabs, carriage returns and line feeds: the longest run of them at
/// the start of the input. More input is needed when the run reaches the end.
pub open spec fn spec_sp_trn(s: Seq<u8>) -> SpecResult<Seq<u8>> {
    spec_take_until(s, Stop::NonSpace)
}

pub fn sp_trn<'a>(input: &'a [u8]) -> (r: PResult<'a, &'a [u8]>)
    ensures
        agrees(input@, r, spec_sp_trn(input@)),
{
    take_until(input, Stop::NonSpace)
}

/// The literal `null`.
pub open spec fn spec_null(s: Seq<u8>) -> SpecResult<()> {
    match spec_tag(s, null_bytes()) {
        Ok((n, _)) => Ok((n, ())),
        Err(e) => Err(e),
    }
}

pub fn null<'a>(input: &'a [u8]) -> (r: PResult<'a, ()>)
    ensures
        agrees(input@, r, spec_null(input@)),
{
    let t: [u8; 4] = [0x6e, 0x75, 0x6c, 0x6c];
    let ts = t.as_slice();
    assert(ts@ =~= null_bytes());
    match tag(input, ts) {
        Ok((rest, _)) => Ok((rest, ())),
        Err(e) => Err(e),
    }
}

/// The literal `true` or, failing that, `false`.
pub open spec fn spec_boolean(s: Seq<u8>) -> SpecResult<bool> {
    match spec_tag(s, true_bytes()) {
        Ok((n, _)) => Ok((n, true)),
        Err(ParseError::Error) => match spec_tag(s, false_bytes()) {
            Ok((n, _)) => Ok((n, false)),
            Err(e) => Err(e),
        },
        Err(e) => Err(e),
    }
}

pub fn boolean<'a>(input: &'a [u8]) -> (r: PResult<'a, bool>)
    ensures
        agrees(input@, r, spec_boolean(input@)),
{
    let t: [u8; 4] = [0x74, 0x72, 0x75, 0x65];
    let ts = t.as_slice();
    assert(ts@ =~= true_bytes());
    match tag(input, ts) {
        Ok((rest, _)) => Ok((rest, true)),
        Err(ParseError::Error) => {
            let f: [u8; 5] = [0x66, 0x61, 0x6c, 0x73, 0x65];
            let fs = f.as_slice();
            assert(fs@ =~= false_bytes());
            match tag(input, fs) {
                Ok((rest, _)) => Ok((rest, false)),
                Err(e) => Err(e),
            }
        },
        Err(e) => Err(e),
    }
}

/// The escaped-text scan of [`spec_parse_str`], resumed at `pos`: runs of
/// ASCII letters and digits, and a backslash followed by one escapable byte,
/// up to the first other byte. Reaching the end of the input asks for more.
#[verifier::opaque]
pub open spec fn spec_escaped_from(s: Seq<u8>, pos: nat) -> SpecResult<Seq<u8>>
    decreases s.len() - pos,
{
    if pos >= s.len() {
        Err(ParseError::Incomplete)
    } else {
        let i = s.skip(pos as int);
        match spec_take_until1(i, Stop::NonAlphanumeric) {
            Ok((k, _)) => if pos + k >= s.len() {
                Err(ParseError::Incomplete)
            } else if k == 0 {
                Ok((pos, s.take(pos as int)))
            } else {
                spec_escaped_from(s, pos + k)
            },
            Err(ParseError::Error) => if i[0] == BACKSLASH {
                if 1 >= i.len() {
                    Err(ParseError::Incomplete)
                } else {
                    match spec_one_of(i.skip(1), escapable_bytes()) {
                        Ok((m, _)) => if pos + 1 + m >= s.len() {
                            Err(ParseError::Incomplete)
                        } else {
                            spec_escaped_from(s, pos + 1 + m)
                        },
                        Err(e) => Err(e),
                    }
                }
            } else {
                Ok((pos, s.take(pos as int)))
            },
            Err(e) => Err(e),
        }
    }
}

/// Text made of ASCII letters and digits and of the escapes `\"`, `\n` and
/// `\\`; the text is given back as it stands.
pub open spec fn spec_parse_str(s: Seq<u8>) -> SpecResult<Seq<u8>> {
    spec_escaped_from(s, 0)
}

pub fn parse_str<'a>(input: &'a [u8]) -> (r: PResult<'a, &'a [u8]>)
    ensures
        agrees(input@, r, spec_parse_str(input@)),
{
    proof {
        reveal(spec_escaped_from);
    }
    let list: [u8; 3] = [0x22, 0x6e, 0x5c];
    let ls = list.as_slice();
    assert(ls@ =~= escapable_bytes());
    let mut pos: usize = 0;
    while pos < input.len()
        invariant
            pos <= input@.len(),
            ls@ == escapable_bytes(),
            spec_escaped_from(input@, pos as nat) == spec_parse_str(input@),
        decreases input.len() - pos,
    {
        proof {
            reveal(spec_escaped_from);
        }
        let i = split(input, pos).0;
        proof {
            lemma_take_until_bound(i@, Stop::NonAlphanumeric);
        }
        match take_until1(i, Stop::NonAlphanumeric) {
            Ok((i2, _)) => {
                if i2.len() == 0 {
                    return Err(ParseError::Incomplete);
                } else if i2.len() == i.len() {
                    return Ok(split(input, pos));
                } else {
                    pos = input.len() - i2.len();
                }
            },
            Err(ParseError::Error) => {
                if i[0] == BACKSLASH {
                    if 1 >= i.len() {
                        return Err(ParseError::Incomplete);
                    }
                    let after = split(i, 1).0;
                    match one_of(after, ls) {
                        Ok((i2, _)) => {
                            if i2.len() == 0 {
                                return Err(ParseError::Incomplete);
                            } else {
                                pos = input.len() - i2.len();
                            }
                        },
                        Err(e) => {
                            return Err(e);
                        },
                    }
                } else {
                    return Ok(split(input, pos));
                }
            },
            Err(e) => {
                return Err(e);
            },
        }
    }
    Err(ParseError::Incomplete)
}

/// A double-quoted [`spec_parse_str`]; once the opening quote is read, any
/// other outcome than the closing quote is a `Failure`.
pub open spec fn spec_parse_string(s: Seq<u8>) -> SpecResult<Seq<u8>> {
    match spec_byte(s, QUOTE) {
        Err(e) => Err(e),
        Ok((n1, _)) => match spec_parse_str(s.skip(n1 as int)) {
            Err(e) => Err(cut_error(e)),
            Ok((n2, v)) => match spec_byte(s.skip((n1 + n2) as int), QUOTE) {
                Err(e) => Err(cut_error(e)),
                Ok((n3, _)) => Ok((n1 + n2 + n3, v)),
            },
        },
    }
}

pub fn parse_string<'a>(input: &'a [u8]) -> (r: PResult<'a, &'a [u8]>)
    ensures
        agrees(input@, r, spec_parse_string(input@)),
{
    let (rest1, _) = byte(input, QUOTE)?;
    let ghost n1 = input@.len() - rest1@.len();
    let (rest2, v) = match parse_str(rest1) {
        Ok(ok) => ok,
        Err(e) => {
            return Err(cut(e));
        },
    };
    let ghost n2 = rest1@.len() - rest2@.len();
    proof {
        lemma_skip_skip(input@, n1, n2);
    }
    let (rest3, _) = match byte(rest2, QUOTE) {
        Ok(ok) => ok,
        Err(e) => {
            return Err(cut(e));
        },
    };
    proof {
        lemma_skip_skip(input@, n1 + n2, rest2@.len() - rest3@.len());
    }
    Ok((rest3, v))
}

/// A double-quoted string (as [`spec_parse_string`]) whose text is valid
/// UTF-8, as characters.
pub open spec fn spec_string_old(s: Seq<u8>) -> SpecResult<Seq<char>> {
    match spec_parse_string(s) {
        Ok((n, b)) => if valid_utf8(b) {
            Ok((n, decode_utf8(b)))
        } else {
            Err(ParseError::Error)
        },
        Err(e) => Err(e),
    }
}

/// Reads `bytes` as UTF-8 text.
fn utf8<'a>(bytes: &'a [u8]) -> (r: Option<&'a str>)
    ensures
        r is Some <==> valid_utf8(bytes@),
        r matches Some(t) ==> t@ == decode_utf8(bytes@),
{
    let r = str_from_utf8(bytes);
    proof {
        if let Some(t) = r {
            encode_utf8_decode_utf8(t@);
        }
    }
    r
}

pub fn string_old<'a>(input: &'a [u8]) -> (r: PResult<'a, &'a str>)
    ensures
        agrees(input@, r, spec_string_old(input@)),
{
    let (rest, b) = parse_string(input)?;
    match utf8(b) {
        Some(t) => Ok((rest, t)),
        None => Err(ParseError::Error),
    }
}

/// A non-empty run of bytes other than `"` and `\`, read as UTF-8 text.
pub open spec fn spec_parse_literal(s: Seq<u8>) -> SpecResult<Seq<char>> {
    match spec_take_until1(s, Stop::QuoteOrBackslash) {
        Err(e) => Err(e),
        Ok((n, b)) => if !valid_utf8(b) {
            Err(ParseError::Error)
        } else if decode_utf8(b).len() == 0 {
            Err(ParseError::Error)
        } else {
            Ok((n, decode_utf8(b)))
        },
    }
}

pub fn parse_literal<'a>(input: &'a [u8]) -> (r: PResult<'a, &'a str>)
    ensures
        agrees(input@, r, spec_parse_literal(input@)),
{
    let (rest, b) = take_until1(input, Stop::QuoteOrBackslash)?;
    match utf8(b) {
        Some(t) => if t.is_empty() {
            Err(ParseError::Error)
        } else {
            Ok((rest, t))
        },
        None => Err(ParseError::Error),
    }
}

/// A piece of the text of a string.
#[derive(Debug, Copy, Clone, PartialEq, Eq)]
pub enum StringFragment<'a> {
    Literal(&'a str),
}

impl<'a> View for StringFragment<'a> {
    type V = Seq<char>;

    open spec fn view(&self) -> Seq<char> {
        match self {
            StringFragment::Literal(t) => t@,
        }
    }
}

/// A fragment of string text; a literal run is the only kind there is.
pub open spec fn spec_parse_fragment(s: Seq<u8>) -> SpecResult<Seq<char>> {
    spec_parse_literal(s)
}

pub fn parse_fragment<'a>(input: &'a [u8]) -> (r: PResult<'a, StringFragment<'a>>)
    ensures
        agrees(input@, r, spec_parse_fragment(input@)),
{
    let (rest, t) = parse_literal(input)?;
    Ok((rest, StringFragment::Literal(t)))
}

/// A string fragment consumes at most its input.
pub proof fn lemma_fragment_bound(s: Seq<u8>)
    ensures
        spec_parse_fragment(s) matches Ok((k, _)) ==> 0 < k <= s.len(),
{
    lemma_take_until_bound(s, Stop::QuoteOrBackslash);
}

/// The fragments of string text from `pos` on, appended to `acc`; the scan
/// stops at the first position where no fragment starts.
#[verifier::opaque]
pub open spec fn spec_fragments_from(s: Seq<u8>, pos: nat, acc: Seq<char>) -> SpecResult<
    Seq<char>,
>
    decreases s.len() - pos,
{
    if pos > s.len() {
        Ok((pos, acc))
    } else {
        match spec_parse_fragment(s.skip(pos as int)) {
            Ok((k, f)) => if k == 0 {
                Err(ParseError::Error)
            } else {
                proof {
                    lemma_fragment_bound(s.skip(pos as int));
                }
                spec_fragments_from(s, pos + k, acc + f)
            },
            Err(ParseError::Error) => Ok((pos, acc)),
            Err(e) => Err(e),
        }
    }
}

/// A double-quoted string without escapes: its text, as characters.
#[verifier::opaque]
pub open spec fn spec_string(s: Seq<u8>) -> SpecResult<Seq<char>> {
    match spec_byte(s, QUOTE) {
        Err(e) => Err(e),
        Ok((n1, _)) => match spec_fragments_from(s, n1, Seq::empty()) {
            Err(e) => Err(e),
            Ok((n2, text)) => match spec_byte(s.skip(n2 as int), QUOTE) {
                Err(e) => Err(e),
                Ok((n3, _)) => Ok((n2 + n3, text)),
            },
        },
    }
}

pub fn string<'a>(input: &'a [u8]) -> (r: PResult<'a, String>)
    ensures
        agrees(input@, r, spec_string(input@)),
{
    proof {
        reveal(spec_string);
    }
    let (rest1, _) = byte(input, QUOTE)?;
    let mut text = String::new();
    let mut rest = rest1;
    loop
        invariant
            rest@.len() <= input@.len(),
            rest@ == input@.skip(input@.len() - rest@.len()),
            spec_fragments_from(input@, (input@.len() - rest@.len()) as nat, text@)
                == spec_fragments_from(input@, 1, Seq::empty()),
            spec_byte(input@, QUOTE) matches Ok((n1, _)) && n1 == 1,
        ensures
            rest@.len() <= input@.len(),
            rest@ == input@.skip(input@.len() - rest@.len()),
            spec_fragments_from(input@, 1, Seq::empty()) == Ok::<(nat, Seq<char>), ParseError>(
                ((input@.len() - rest@.len()) as nat, text@),
            ),
        decreases rest@.len(),
    {
        let ghost pos = (input@.len() - rest@.len()) as nat;
        proof {
            reveal(spec_string);
            reveal(spec_fragments_from);
            lemma_fragment_bound(rest@);
        }
        match parse_fragment(rest) {
            Ok((rest2, fragment)) => {
                if rest2.len() == rest.len() {
                    return Err(ParseError::Error);
                }
                match fragment {
                    StringFragment::Literal(t) => text.append(t),
                }
                rest = rest2;
            },
            Err(ParseError::Error) => {
                break ;
            },
            Err(e) => {
                return Err(e);
            },
        }
    }
    let (rest3, _) = byte(rest, QUOTE)?;
    proof {
        lemma_skip_skip(input@, input@.len() - rest@.len(), 1);
    }
    Ok((rest3, text))
}

/// The fragments of a string consume at most the input.
pub proof fn lemma_fragments_bound(s: Seq<u8>, pos: nat, acc: Seq<char>)
    requires
        pos <= s.len(),
    ensures
        spec_fragments_from(s, pos, acc) matches Ok((p, _)) ==> pos <= p <= s.len(),
    decreases s.len() - pos,
{
    reveal(spec_fragments_from);
    lemma_fragment_bound(s.skip(pos as int));
    if let Ok((k, f)) = spec_parse_fragment(s.skip(pos as int)) {
        if k > 0 {
            lemma_fragments_bound(s, pos + k, acc + f);
        }
    }
}

/// A string consumes at most its input.
pub proof fn lemma_string_bound(s: Seq<u8>)
    ensures
        spec_string(s) matches Ok((n, _)) ==> 2 <= n <= s.len(),
{
    reveal(spec_string);
    if s.len() > 0 && s[0] == QUOTE {
        lemma_fragments_bound(s, 1, Seq::empty());
    }
}

/// Spaces, then the byte `c`.
pub open spec fn spec_ws_byte(s: Seq<u8>, c: u8) -> SpecResult<u8> {
    match spec_sp_trn(s) {
        Err(e) => Err(e),
        Ok((k, _)) => match spec_byte(s.skip(k as int), c) {
            Err(e) => Err(e),
            Ok((m, b)) => Ok((k + m, b)),
        },
    }
}

/// Spaces then one byte consume at most the input.
pub proof fn lemma_ws_byte_bound(s: Seq<u8>, c: u8)
    ensures
        spec_ws_byte(s, c) matches Ok((n, _)) ==> 0 < n <= s.len(),
{
    lemma_take_until_bound(s, Stop::NonSpace);
    if let Ok((k, _)) = spec_sp_trn(s) {
        lemma_byte_bound(s.skip(k as int), c, Seq::empty());
    }
}

pub fn ws_byte<'a>(input: &'a [u8], c: u8) -> (r: PResult<'a, u8>)
    ensures
        agrees(input@, r, spec_ws_byte(input@, c)),
{
    let (rest1, _) = sp_trn(input)?;
    let (rest2, b) = byte(rest1, c)?;
    proof {
        lemma_skip_skip(input@, input@.len() - rest1@.len(), rest1@.len() - rest2@.len());
    }
    Ok((rest2, b))
}

/// The number text at the start of the input, given the outcome `extent`
/// of the float recogniser on that input. A length beyond the end of the
/// input is no number.
pub open spec fn spec_number_from(s: Seq<u8>, extent: Result<usize, ParseError>) -> SpecResult<
    Seq<u8>,
> {
    match extent {
        Ok(n) => if n <= s.len() {
            Ok((n as nat, s.take(n as int)))
        } else {
            Err(ParseError::Error)
        },
        Err(e) => Err(e),
    }
}

/// The number text at the start of the input, as the float recogniser finds
/// it. An empty input asks for more, and an input whose first byte cannot
/// begin a number holds none.
pub open spec fn spec_number(s: Seq<u8>) -> SpecResult<Seq<u8>> {
    if s.len() == 0 {
        Err(ParseError::Incomplete)
    } else if !may_start_number(s[0]) {
        Err(ParseError::Error)
    } else {
        spec_number_from(s, float_extent(s))
    }
}

pub fn number_from<'a>(input: &'a [u8], extent: Result<usize, ParseError>) -> (r: PResult<
    'a,
    Vec<u8>,
>)
    ensures
        agrees(input@, r, spec_number_from(input@, extent)),
{
    match extent {
        Ok(n) => if n <= input.len() {
            let (rest, text) = split(input, n);
            Ok((rest, slice_to_vec(text)))
        } else {
            Err(ParseError::Error)
        },
        Err(e) => Err(e),
    }
}

pub fn number<'a>(input: &'a [u8]) -> (r: PResult<'a, Vec<u8>>)
    ensures
        agrees(input@, r, spec_number(input@)),
{
    number_from(input, recognize_float(input))
}

/// What comes before an object entry's value: spaces and a string key,
/// then spaces and `:`; a missing `:` is a `Failure`.
pub open spec fn spec_key_prefix(w: Seq<u8>) -> SpecResult<Seq<char>> {
    match spec_sp_trn(w) {
        Err(e) => Err(e),
        Ok((k1, _)) => match spec_string(w.skip(k1 as int)) {
            Err(e) => Err(e),
            Ok((n2, key)) => match spec_ws_byte(w.skip((k1 + n2) as int), COLON) {
                Err(e) => Err(cut_error(e)),
                Ok((n3, _)) => Ok((k1 + n2 + n3, key)),
            },
        },
    }
}

/// An object key and its colon consume at most the input.
pub proof fn lemma_key_prefix_bound(w: Seq<u8>)
    ensures
        spec_key_prefix(w) matches Ok((n, _)) ==> 0 < n <= w.len(),
{
    lemma_take_until_bound(w, Stop::NonSpace);
    if let Ok((k1, _)) = spec_sp_trn(w) {
        lemma_string_bound(w.skip(k1 as int));
        if let Ok((n2, _)) = spec_string(w.skip(k1 as int)) {
            lemma_ws_byte_bound(w.skip((k1 + n2) as int), COLON);
        }
    }
}

pub fn key_prefix<'a>(input: &'a [u8]) -> (r: PResult<'a, String>)
    ensures
        agrees(input@, r, spec_key_prefix(input@)),
{
    let (rest1, _) = sp_trn(input)?;
    let ghost n1 = input@.len() - rest1@.len();
    let (rest2, key) = string(rest1)?;
    let ghost n2 = rest1@.len() - rest2@.len();
    proof {
        lemma_skip_skip(input@, n1, n2);
    }
    let (rest3, _) = match ws_byte(rest2, COLON) {
        Ok(ok) => ok,
        Err(e) => {
            return Err(cut(e));
        },
    };
    proof {
        lemma_skip_skip(input@, n1 + n2, rest2@.len() - rest3@.len());
    }
    Ok((rest3, key))
}

/// How much of `u` lies at or after `pos`.
pub open spec fn remaining(u: Seq<u8>, pos: nat) -> int {
    if pos <= u.len() {
        u.len() - pos
    } else {
        0
    }
}

/// Spaces, then one of `null`, `true`/`false`, a number, a string, an array
/// or an object, tried in that order.
#[verifier::opaque]
pub open spec fn spec_json_value(s: Seq<u8>) -> SpecResult<Json>
    decreases s.len() as int, 2int,
{
    match spec_sp_trn(s) {
        Err(e) => Err(e),
        Ok((k, _)) => {
            proof {
                lemma_take_until_bound(s, Stop::NonSpace);
            }
            let t = s.skip(k as int);
            let r = alt(
                map_ok(spec_null(t), |u: ()| Json::Null),
                alt(
                    map_ok(spec_boolean(t), |b: bool| Json::Bool(b)),
                    alt(
                        map_ok(spec_number(t), |d: Seq<u8>| Json::Num(d)),
                        alt(
                            map_ok(spec_string(t), |x: Seq<char>| Json::Str(x)),
                            alt(
                                map_ok(spec_array(t), |a: Seq<Json>| Json::Array(a)),
                                map_ok(
                                    spec_hash(t),
                                    |o: Seq<(Seq<char>, Json)>| Json::Object(o),
                                ),
                            ),
                        ),
                    ),
                ),
            );
            match r {
                Ok((n, v)) => Ok((k + n, v)),
                Err(e) => Err(e),
            }
        },
    }
}

/// Spaces, then a value.
#[verifier::opaque]
pub open spec fn spec_element(w: Seq<u8>) -> SpecResult<Json>
    decreases w.len() as int, 3int,
{
    match spec_sp_trn(w) {
        Err(e) => Err(e),
        Ok((k, _)) => {
            proof {
                lemma_take_until_bound(w, Stop::NonSpace);
            }
            match spec_json_value(w.skip(k as int)) {
                Ok((n, v)) => Ok((k + n, v)),
                Err(e) => Err(e),
            }
        },
    }
}

/// The array elements after the first, from `pos` on, each after a comma,
/// appended to `acc`. The list ends before the first comma or element that
/// is an `Error`.
#[verifier::opaque]
pub open spec fn spec_values_from(u: Seq<u8>, pos: nat, acc: Seq<Json>) -> SpecResult<Seq<Json>>
    decreases remaining(u, pos), 3int,
{
    if pos > u.len() {
        Ok((pos, acc))
    } else {
        match spec_ws_byte(u.skip(pos as int), COMMA) {
            Err(ParseError::Error) => Ok((pos, acc)),
            Err(e) => Err(e),
            Ok((ns, _)) => if ns == 0 {
                Err(ParseError::Error)
            } else {
                proof {
                    lemma_ws_byte_bound(u.skip(pos as int), COMMA);
                }
                match spec_element(u.skip((pos + ns) as int)) {
                    Err(ParseError::Error) => Ok((pos, acc)),
                    Err(e) => Err(e),
                    Ok((ne, v)) => spec_values_from(u, pos + ns + ne, acc.push(v)),
                }
            },
        }
    }
}

/// Comma-separated elements, possibly none.
#[verifier::opaque]
pub open spec fn spec_values(u: Seq<u8>) -> SpecResult<Seq<Json>>
    decreases u.len() as int, 4int,
{
    match spec_element(u) {
        Err(ParseError::Error) => Ok((0, Seq::empty())),
        Err(e) => Err(e),
        Ok((n1, v)) => spec_values_from(u, n1, seq![v]),
    }
}

/// `[`, comma-separated elements, spaces and `]`; after the `[` any other
/// outcome is a `Failure`.
#[verifier::opaque]
pub open spec fn spec_array(s: Seq<u8>) -> SpecResult<Seq<Json>>
    decreases s.len() as int, 0int,
{
    match spec_byte(s, LBRACKET) {
        Err(e) => Err(e),
        Ok((n1, _)) => {
            proof {
                lemma_byte_bound(s, LBRACKET, Seq::empty());
            }
            match spec_values(s.skip(n1 as int)) {
                Err(e) => Err(cut_error(e)),
                Ok((n2, vs)) => match spec_ws_byte(s.skip((n1 + n2) as int), RBRACKET) {
                    Err(e) => Err(cut_error(e)),
                    Ok((n3, _)) => Ok((n1 + n2 + n3, vs)),
                },
            }
        },
    }
}

/// Spaces and a string key, spaces and `:`, then an element; a missing `:`
/// is a `Failure`.
#[verifier::opaque]
pub open spec fn spec_key_value(w: Seq<u8>) -> SpecResult<(Seq<char>, Json)>
    decreases w.len() as int, 3int,
{
    match spec_key_prefix(w) {
        Err(e) => Err(e),
        Ok((n, key)) => {
            proof {
                lemma_key_prefix_bound(w);
            }
            match spec_element(w.skip(n as int)) {
                Err(e) => Err(e),
                Ok((m, v)) => Ok((n + m, (key, v))),
            }
        },
    }
}

/// The object entries after the first, from `pos` on, each after a comma,
/// appended to `acc`.
#[verifier::opaque]
pub open spec fn spec_pairs_from(u: Seq<u8>, pos: nat, acc: Seq<(Seq<char>, Json)>) -> SpecResult<
    Seq<(Seq<char>, Json)>,
>
    decreases remaining(u, pos), 3int,
{
    if pos > u.len() {
        Ok((pos, acc))
    } else {
        match spec_ws_byte(u.skip(pos as int), COMMA) {
            Err(ParseError::Error) => Ok((pos, acc)),
            Err(e) => Err(e),
            Ok((ns, _)) => if ns == 0 {
                Err(ParseError::Error)
            } else {
                proof {
                    lemma_ws_byte_bound(u.skip(pos as int), COMMA);
                }
                match spec_key_value(u.skip((pos + ns) as int)) {
                    Err(ParseError::Error) => Ok((pos, acc)),
                    Err(e) => Err(e),
                    Ok((ne, kv)) => spec_pairs_from(u, pos + ns + ne, acc.push(kv)),
                }
            },
        }
    }
}

/// Comma-separated object entries, possibly none, as they appear.
#[verifier::opaque]
pub open spec fn spec_pairs(u: Seq<u8>) -> SpecResult<Seq<(Seq<char>, Json)>>
    decreases u.len() as int, 4int,
{
    match spec_key_value(u) {
        Err(ParseError::Error) => Ok((0, Seq::empty())),
        Err(e) => Err(e),
        Ok((n1, kv)) => spec_pairs_from(u, n1, seq![kv]),
    }
}

/// `{`, comma-separated entries, spaces and `}`; after the `{` any other
/// outcome is a `Failure`. The object keeps each key once (see
/// [`collect_spec`]).
#[verifier::opaque]
pub open spec fn spec_hash(s: Seq<u8>) -> SpecResult<Seq<(Seq<char>, Json)>>
    decreases s.len() as int, 0int,
{
    match spec_byte(s, LBRACE) {
        Err(e) => Err(e),
        Ok((n1, _)) => {
            proof {
                lemma_byte_bound(s, LBRACE, Seq::empty());
            }
            match spec_pairs(s.skip(n1 as int)) {
                Err(e) => Err(cut_error(e)),
                Ok((n2, raw)) => match spec_ws_byte(s.skip((n1 + n2) as int), RBRACE) {
                    Err(e) => Err(cut_error(e)),
                    Ok((n3, _)) => Ok((n1 + n2 + n3, collect_spec(raw))),
                },
            }
        },
    }
}

pub fn json_value<'a>(input: &'a [u8]) -> (r: PResult<'a, JsonValue>)
    ensures
        agrees(input@, r, spec_json_value(input@)),
    decreases input@.len() as int, 2int,
{
    proof {
        reveal(spec_json_value);
        reveal(spec_array);
        reveal(spec_hash);
    }
    let (t, _) = sp_trn(input)?;
    let ghost k = input@.len() - t@.len();
    match null(t) {
        Ok((rest, _)) => {
            proof {
                lemma_skip_skip(input@, k, t@.len() - rest@.len());
            }
            return Ok((rest, JsonValue::Null));
        },
        Err(ParseError::Error) => {},
        Err(e) => {
            return Err(e);
        },
    }
    match boolean(t) {
        Ok((rest, b)) => {
            proof {
                lemma_skip_skip(input@, k, t@.len() - rest@.len());
            }
            return Ok((rest, JsonValue::Bool(b)));
        },
        Err(ParseError::Error) => {},
        Err(e) => {
            return Err(e);
        },
    }
    match number(t) {
        Ok((rest, d)) => {
            proof {
                lemma_skip_skip(input@, k, t@.len() - rest@.len());
            }
            return Ok((rest, JsonValue::Num(d)));
        },
        Err(ParseError::Error) => {},
        Err(e) => {
            return Err(e);
        },
    }
    match string(t) {
        Ok((rest, text)) => {
            proof {
                lemma_skip_skip(input@, k, t@.len() - rest@.len());
            }
            return Ok((rest, JsonValue::Str(text)));
        },
        Err(ParseError::Error) => {},
        Err(e) => {
            return Err(e);
        },
    }
    match array(t) {
        Ok((rest, vs)) => {
            proof {
                lemma_skip_skip(input@, k, t@.len() - rest@.len());
                lemma_array_model(vs);
            }
            return Ok((rest, JsonValue::Array(vs)));
        },
        Err(ParseError::Error) => {},
        Err(e) => {
            return Err(e);
        },
    }
    match hash(t) {
        Ok((rest, kvs)) => {
            proof {
                lemma_skip_skip(input@, k, t@.len() - rest@.len());
                lemma_object_model(kvs);
            }
            Ok((rest, JsonValue::Object(kvs)))
        },
        Err(e) => Err(e),
    }
}

pub fn element<'a>(input: &'a [u8]) -> (r: PResult<'a, JsonValue>)
    ensures
        agrees(input@, r, spec_element(input@)),
    decreases input@.len() as int, 3int,
{
    proof {
        reveal(spec_element);
        reveal(spec_json_value);
    }
    let (t, _) = sp_trn(input)?;
    let (rest, v) = json_value(t)?;
    proof {
        lemma_skip_skip(input@, input@.len() - t@.len(), t@.len() - rest@.len());
    }
    Ok((rest, v))
}

pub fn values<'a>(input: &'a [u8]) -> (r: PResult<'a, Vec<JsonValue>>)
    ensures
        agrees_by(input@, r, spec_values(input@), |vs: Vec<JsonValue>| values_models(vs@)),
    decreases input@.len() as int, 4int,
{
    proof {
        reveal(spec_values);
        reveal(spec_values_from);
        reveal(spec_element);
    }
    let mut res: Vec<JsonValue> = Vec::new();
    let (mut i, first) = match element(input) {
        Err(ParseError::Error) => {
            assert(values_models(res@) =~= Seq::empty());
            assert(input@.skip(0) =~= input@);
            return Ok((input, res));
        },
        Err(e) => {
            return Err(e);
        },
        Ok(ok) => ok,
    };
    res.push(first);
    assert(values_models(res@) =~= seq![first@]);
    loop
        invariant
            i@.len() <= input@.len(),
            i@ == input@.skip(input@.len() - i@.len()),
            spec_values(input@) == spec_values_from(
                input@,
                (input@.len() - i@.len()) as nat,
                values_models(res@),
            ),
        decreases i@.len(),
    {
        let ghost pos = (input@.len() - i@.len()) as nat;
        let len = i.len();
        proof {
            reveal(spec_values);
            reveal(spec_values_from);
            reveal(spec_element);
            lemma_ws_byte_bound(i@, COMMA);
        }
        match ws_byte(i, COMMA) {
            Err(ParseError::Error) => {
                return Ok((i, res));
            },
            Err(e) => {
                return Err(e);
            },
            Ok((i1, _)) => {
                if i1.len() == len {
                    return Err(ParseError::Error);
                }
                proof {
                    lemma_skip_skip(input@, pos as int, len - i1@.len());
                }
                match element(i1) {
                    Err(ParseError::Error) => {
                        return Ok((i, res));
                    },
                    Err(e) => {
                        return Err(e);
                    },
                    Ok((i2, o)) => {
                        proof {
                            lemma_skip_skip(
                                input@,
                                pos + (len - i1@.len()),
                                i1@.len() - i2@.len(),
                            );
                        }
                        let ghost before = values_models(res@);
                        res.push(o);
                        assert(values_models(res@) =~= before.push(o@));
                        i = i2;
                    },
                }
            },
        }
    }
}

pub fn array<'a>(input: &'a [u8]) -> (r: PResult<'a, Vec<JsonValue>>)
    ensures
        agrees_by(input@, r, spec_array(input@), |vs: Vec<JsonValue>| values_models(vs@)),
    decreases input@.len() as int, 0int,
{
    proof {
        reveal(spec_array);
        reveal(spec_values);
    }
    let (rest1, _) = byte(input, LBRACKET)?;
    let ghost n1 = input@.len() - rest1@.len();
    let (rest2, vs) = match values(rest1) {
        Ok(ok) => ok,
        Err(e) => {
            return Err(cut(e));
        },
    };
    let ghost n2 = rest1@.len() - rest2@.len();
    proof {
        lemma_skip_skip(input@, n1, n2);
    }
    let (rest3, _) = match ws_byte(rest2, RBRACKET) {
        Ok(ok) => ok,
        Err(e) => {
            return Err(cut(e));
        },
    };
    proof {
        lemma_skip_skip(input@, n1 + n2, rest2@.len() - rest3@.len());
    }
    Ok((rest3, vs))
}

pub fn key_value<'a>(input: &'a [u8]) -> (r: PResult<'a, (String, JsonValue)>)
    ensures
        agrees(input@, r, spec_key_value(input@)),
    decreases input@.len() as int, 3int,
{
    proof {
        reveal(spec_key_value);
        reveal(spec_element);
        lemma_key_prefix_bound(input@);
    }
    let (rest1, key) = key_prefix(input)?;
    let (rest2, value) = element(rest1)?;
    proof {
        lemma_skip_skip(input@, input@.len() - rest1@.len(), rest1@.len() - rest2@.len());
    }
    Ok((rest2, (key, value)))
}

pub fn pairs<'a>(input: &'a [u8]) -> (r: PResult<'a, Vec<(String, JsonValue)>>)
    ensures
        agrees_by(
            input@,
            r,
            spec_pairs(input@),
            |kvs: Vec<(String, JsonValue)>| entries_models(kvs@),
        ),
    decreases input@.len() as int, 4int,
{
    proof {
        reveal(spec_pairs);
        reveal(spec_pairs_from);
        reveal(spec_key_value);
    }
    let mut res: Vec<(String, JsonValue)> = Vec::new();
    let (mut i, first) = match key_value(input) {
        Err(ParseError::Error) => {
            assert(entries_models(res@) =~= Seq::empty());
            assert(input@.skip(0) =~= input@);
            return Ok((input, res));
        },
        Err(e) => {
            return Err(e);
        },
        Ok(ok) => ok,
    };
    let ghost first_model = first@;
    res.push(first);
    assert(entries_models(res@) =~= seq![first_model]);
    loop
        invariant
            i@.len() <= input@.len(),
            i@ == input@.skip(input@.len() - i@.len()),
            spec_pairs(input@) == spec_pairs_from(
                input@,
                (input@.len() - i@.len()) as nat,
                entries_models(res@),
            ),
        decreases i@.len(),
    {
        let ghost pos = (input@.len() - i@.len()) as nat;
        let len = i.len();
        proof {
            reveal(spec_pairs);
            reveal(spec_pairs_from);
            reveal(spec_key_value);
            lemma_ws_byte_bound(i@, COMMA);
        }
        match ws_byte(i, COMMA) {
            Err(ParseError::Error) => {
                return Ok((i, res));
            },
            Err(e) => {
                return Err(e);
            },
            Ok((i1, _)) => {
                if i1.len() == len {
                    return Err(ParseError::Error);
                }
                proof {
                    lemma_skip_skip(input@, pos as int, len - i1@.len());
                }
                match key_value(i1) {
                    Err(ParseError::Error) => {
                        return Ok((i, res));
                    },
                    Err(e) => {
                        return Err(e);
                    },
                    Ok((i2, kv)) => {
                        proof {
                            lemma_skip_skip(
                                input@,
                                pos + (len - i1@.len()),
                                i1@.len() - i2@.len(),
                            );
                        }
                        let ghost before = entries_models(res@);
                        let ghost kv_model = kv@;
                        res.push(kv);
                        assert(entries_models(res@) =~= before.push(kv_model));
                        i = i2;
                    },
                }
            },
        }
    }
}

pub fn hash<'a>(input: &'a [u8]) -> (r: PResult<'a, Vec<(String, JsonValue)>>)
    ensures
        agrees_by(
            input@,
            r,
            spec_hash(input@),
            |kvs: Vec<(String, JsonValue)>| entries_models(kvs@),
        ),
        r matches Ok((_, kvs)) ==> keys_distinct(entries_models(kvs@)),
    decreases input@.len() as int, 0int,
{
    proof {
        lemma_object_keys_distinct(input@);
        reveal(spec_hash);
        reveal(spec_pairs);
    }
    let (rest1, _) = byte(input, LBRACE)?;
    let ghost n1 = input@.len() - rest1@.len();
    let (rest2, raw) = match pairs(rest1) {
        Ok(ok) => ok,
        Err(e) => {
            return Err(cut(e));
        },
    };
    let ghost n2 = rest1@.len() - rest2@.len();
    proof {
        lemma_skip_skip(input@, n1, n2);
    }
    let (rest3, _) = match ws_byte(rest2, RBRACE) {
        Ok(ok) => ok,
        Err(e) => {
            return Err(cut(e));
        },
    };
    proof {
        lemma_skip_skip(input@, n1 + n2, rest2@.len() - rest3@.len());
    }
    Ok((rest3, collect_entries(raw)))
}

/// The spaces that [`sp_trn`] takes are the whole run of spaces, tabs,
/// carriage returns and line feeds at the start of the input: the byte after
/// them is none of these. It asks for more input exactly when the input is
/// all such bytes.
pub proof fn lemma_sp_trn_takes_all_spaces(s: Seq<u8>)
    ensures
        spec_sp_trn(s) matches Ok((k, w)) ==> {
            &&& w == s.take(k as int)
            &&& k < s.len()
            &&& !is_space(s[k as int])
            &&& forall|j: int| 0 <= j < k ==> is_space(#[trigger] s[j])
        },
        spec_sp_trn(s) is Err <==> (forall|j: int| 0 <= j < s.len() ==> is_space(#[trigger] s[j])),
        spec_sp_trn(s) is Err ==> spec_sp_trn(s) == Err::<(nat, Seq<u8>), ParseError>(
            ParseError::Incomplete,
        ),
{
    if exists|k: int| is_first_stop(s, Stop::NonSpace, k) {
        let k = choose|k: int| is_first_stop(s, Stop::NonSpace, k);
        lemma_first_stop(s, Stop::NonSpace, k);
    } else {
        reveal(first_stop);
        assert forall|j: int| 0 <= j < s.len() implies is_space(#[trigger] s[j]) by {
            if !is_space(s[j]) {
                lemma_exists_first_stop(s, Stop::NonSpace, j);
            }
        }
    }
}

/// Leading spaces do not change what [`json_value`] reads: after a run of
/// spaces, tabs, carriage returns and line feeds it reads the same value, or
/// fails in the same way, and consumes the run as well.
pub proof fn lemma_json_value_skips_leading_spaces(ws: Seq<u8>, x: Seq<u8>)
    requires
        forall|j: int| 0 <= j < ws.len() ==> is_space(#[trigger] ws[j]),
    ensures
        spec_json_value(ws + x) == match spec_json_value(x) {
            Ok((n, v)) => Ok::<(nat, Json), ParseError>((ws.len() + n, v)),
            Err(e) => Err(e),
        },
{
    reveal(spec_json_value);
    let s = ws + x;
    lemma_sp_trn_takes_all_spaces(x);
    lemma_sp_trn_takes_all_spaces(s);
    match spec_sp_trn(x) {
        Ok((k, _)) => {
            let p: int = (ws.len() + k) as int;
            assert(is_first_stop(s, Stop::NonSpace, p)) by {
                assert(s[p] == x[k as int]);
                assert forall|j: int| 0 <= j < p implies !super::primitives::stops(
                    Stop::NonSpace,
                    #[trigger] s[j],
                ) by {
                    if j < ws.len() {
                        assert(s[j] == ws[j]);
                    } else {
                        assert(s[j] == x[j - ws.len()]);
                    }
                }
            }
            lemma_first_stop(s, Stop::NonSpace, p);
            assert(s.skip(p) =~= x.skip(k as int));
        },
        Err(_) => {
            assert forall|j: int| 0 <= j < s.len() implies is_space(#[trigger] s[j]) by {
                if j < ws.len() {
                    assert(s[j] == ws[j]);
                } else {
                    assert(s[j] == x[j - ws.len()]);
                }
            }
        },
    }
}

/// A string reads back as its own text: a double quote, UTF-8 text with no
/// `"` or `\` in it, and a double quote give that text as characters, and
/// whatever follows the closing quote is left unread.
pub proof fn lemma_string_reads_its_text(b: Seq<u8>, rest: Seq<u8>)
    requires
        valid_utf8(b),
        forall|j: int| 0 <= j < b.len() ==> #[trigger] b[j] != QUOTE && b[j] != BACKSLASH,
    ensures
        spec_string(seq![QUOTE] + b + seq![QUOTE] + rest) == Ok::<(nat, Seq<char>), ParseError>(
            (b.len() + 2, decode_utf8(b)),
        ),
{
    reveal(spec_string);
    reveal(spec_fragments_from);
    let s = seq![QUOTE] + b + seq![QUOTE] + rest;
    let len = b.len() as int;
    let i = s.skip(1);
    assert(i[len] == QUOTE);
    assert forall|j: int| 0 <= j < len implies !super::primitives::stops(
        Stop::QuoteOrBackslash,
        #[trigger] i[j],
    ) by {
        assert(i[j] == b[j]);
    }
    assert(is_first_stop(i, Stop::QuoteOrBackslash, len));
    lemma_first_stop(i, Stop::QuoteOrBackslash, len);
    let e = s.skip(1 + len);
    assert(e[0] == QUOTE);
    assert(is_first_stop(e, Stop::QuoteOrBackslash, 0));
    lemma_first_stop(e, Stop::QuoteOrBackslash, 0);
    
    assert(s[0] == QUOTE);
    assert(spec_byte(e, QUOTE) == Ok::<(nat, u8), ParseError>((1, QUOTE)));
    assert(spec_parse_fragment(e) == Err::<(nat, Seq<char>), ParseError>(ParseError::Error));
    if len == 0 {
        assert(decode_utf8(b) =~= Seq::<char>::empty());
        assert(i =~= e);
        assert(spec_fragments_from(s, 1, Seq::empty()) == Ok::<(nat, Seq<char>), ParseError>(
            (1, Seq::empty()),
        ));
    } else {
        assert(i.take(len) =~= b);
        assert(decode_utf8(b).len() > 0);
        assert(spec_parse_fragment(i) == Ok::<(nat, Seq<char>), ParseError>(
            (len as nat, decode_utf8(b)),
        ));
        assert(Seq::<char>::empty() + decode_utf8(b) =~= decode_utf8(b));
        assert(spec_fragments_from(s, (1 + len) as nat, decode_utf8(b)) == Ok::<
            (nat, Seq<char>),
            ParseError,
        >(((1 + len) as nat, decode_utf8(b))));
        assert(spec_fragments_from(s, 1, Seq::empty()) == Ok::<(nat, Seq<char>), ParseError>(
            ((1 + len) as nat, decode_utf8(b)),
        ));
    }
}

/// No key occurs twice in an object that [`hash`] reads.
pub proof fn lemma_object_keys_distinct(s: Seq<u8>)
    ensures
        spec_hash(s) matches Ok((_, kvs)) ==> keys_distinct(kvs),
{
    reveal(spec_hash);
    reveal(spec_pairs);
    if let Ok((n1, _)) = spec_byte(s, LBRACE) {
        if let Ok((_, raw)) = spec_pairs(s.skip(n1 as int)) {
            lemma_collect_keys_distinct(raw);
        }
    }
}

/// A value consumes at most its input.
pub proof fn lemma_json_value_bound(s: Seq<u8>)
    ensures
        spec_json_value(s) matches Ok((n, _)) ==> n <= s.len(),
    decreases s.len() as int, 2int,
{
    reveal(spec_json_value);
    reveal(spec_array);
    reveal(spec_hash);
    lemma_take_until_bound(s, Stop::NonSpace);
    if let Ok((k, _)) = spec_sp_trn(s) {
        let t = s.skip(k as int);
        reveal(spec_tag);
        lemma_tag_bound(t, null_bytes());
        lemma_tag_bound(t, true_bytes());
        lemma_tag_bound(t, false_bytes());
        lemma_string_bound(t);
        lemma_array_bound(t);
        lemma_hash_bound(t);
    }
}

/// An array element consumes at most its input.
pub proof fn lemma_element_bound(w: Seq<u8>)
    ensures
        spec_element(w) matches Ok((n, _)) ==> n <= w.len(),
    decreases w.len() as int, 3int,
{
    reveal(spec_element);
    reveal(spec_json_value);
    lemma_take_until_bound(w, Stop::NonSpace);
    if let Ok((k, _)) = spec_sp_trn(w) {
        lemma_json_value_bound(w.skip(k as int));
    }
}

/// The elements of an array consume at most the input, and those read
/// before `pos` stay at the front of the list.
pub proof fn lemma_values_from_bound(u: Seq<u8>, pos: nat, acc: Seq<Json>)
    ensures
        pos <= u.len() ==> (spec_values_from(u, pos, acc) matches Ok((p, vs)) ==> pos <= p
            <= u.len()),
        spec_values_from(u, pos, acc) matches Ok((p, vs)) ==> vs.len() >= acc.len()
            && vs.take(acc.len() as int) == acc,
    decreases remaining(u, pos), 3int,
{
    reveal(spec_values_from);
    reveal(spec_element);
    if pos <= u.len() {
        lemma_ws_byte_bound(u.skip(pos as int), COMMA);
        if let Ok((ns, _)) = spec_ws_byte(u.skip(pos as int), COMMA) {
            if ns > 0 {
                lemma_element_bound(u.skip((pos + ns) as int));
                if let Ok((ne, v)) = spec_element(u.skip((pos + ns) as int)) {
                    lemma_values_from_bound(u, pos + ns + ne, acc.push(v));
                    if let Ok((p, vs)) = spec_values_from(u, pos + ns + ne, acc.push(v)) {
                        assert(vs.take(acc.len() as int) == vs.take((acc.len() + 1) as int).take(
                            acc.len() as int,
                        ));
                        assert(acc.push(v).take(acc.len() as int) =~= acc);
                    }
                }
            }
        }
    }
    if let Ok((p, vs)) = spec_values_from(u, pos, acc) {
        if vs == acc {
            assert(vs.take(acc.len() as int) =~= acc);
        }
    }
}

/// The elements of an array consume at most the input.
pub proof fn lemma_values_bound(u: Seq<u8>)
    ensures
        spec_values(u) matches Ok((n, _)) ==> n <= u.len(),
    decreases u.len() as int, 4int,
{
    reveal(spec_values);
    reveal(spec_values_from);
    reveal(spec_element);
    lemma_element_bound(u);
    if let Ok((n1, v)) = spec_element(u) {
        lemma_values_from_bound(u, n1, seq![v]);
    }
}

/// An array consumes at most its input.
pub proof fn lemma_array_bound(s: Seq<u8>)
    ensures
        spec_array(s) matches Ok((n, _)) ==> n <= s.len(),
    decreases s.len() as int, 0int,
{
    reveal(spec_array);
    reveal(spec_values);
    lemma_byte_bound(s, LBRACKET, Seq::empty());
    if let Ok((n1, _)) = spec_byte(s, LBRACKET) {
        lemma_values_bound(s.skip(n1 as int));
        if let Ok((n2, _)) = spec_values(s.skip(n1 as int)) {
            lemma_ws_byte_bound(s.skip((n1 + n2) as int), RBRACKET);
        }
    }
}

/// A key-value pair consumes at most its input.
pub proof fn lemma_key_value_bound(w: Seq<u8>)
    ensures
        spec_key_value(w) matches Ok((n, _)) ==> n <= w.len(),
    decreases w.len() as int, 3int,
{
    reveal(spec_key_value);
    reveal(spec_element);
    lemma_key_prefix_bound(w);
    if let Ok((n, _)) = spec_key_prefix(w) {
        lemma_element_bound(w.skip(n as int));
    }
}

/// The entries of an object consume at most the input, and those read
/// before `pos` stay at the front of the list.
pub proof fn lemma_pairs_from_bound(u: Seq<u8>, pos: nat, acc: Seq<(Seq<char>, Json)>)
    ensures
        pos <= u.len() ==> (spec_pairs_from(u, pos, acc) matches Ok((p, _)) ==> pos <= p
            <= u.len()),
    decreases remaining(u, pos), 3int,
{
    reveal(spec_pairs_from);
    reveal(spec_key_value);
    if pos <= u.len() {
        lemma_ws_byte_bound(u.skip(pos as int), COMMA);
        if let Ok((ns, _)) = spec_ws_byte(u.skip(pos as int), COMMA) {
            if ns > 0 {
                lemma_key_value_bound(u.skip((pos + ns) as int));
                if let Ok((ne, kv)) = spec_key_value(u.skip((pos + ns) as int)) {
                    lemma_pairs_from_bound(u, pos + ns + ne, acc.push(kv));
                }
            }
        }
    }
}

/// The entries of an object consume at most the input.
pub proof fn lemma_pairs_bound(u: Seq<u8>)
    ensures
        spec_pairs(u) matches Ok((n, _)) ==> n <= u.len(),
    decreases u.len() as int, 4int,
{
    reveal(spec_pairs);
    reveal(spec_pairs_from);
    reveal(spec_key_value);
    lemma_key_value_bound(u);
    if let Ok((n1, kv)) = spec_key_value(u) {
        lemma_pairs_from_bound(u, n1, seq![kv]);
    }
}

/// An object consumes at most its input.
pub proof fn lemma_hash_bound(s: Seq<u8>)
    ensures
        spec_hash(s) matches Ok((n, _)) ==> n <= s.len(),
    decreases s.len() as int, 0int,
{
    reveal(spec_hash);
    reveal(spec_pairs);
    lemma_byte_bound(s, LBRACE, Seq::empty());
    if let Ok((n1, _)) = spec_byte(s, LBRACE) {
        lemma_pairs_bound(s.skip(n1 as int));
        if let Ok((n2, _)) = spec_pairs(s.skip(n1 as int)) {
            lemma_ws_byte_bound(s.skip((n1 + n2) as int), RBRACE);
        }
    }
}

/// Spaces then one byte can match at most one byte.
pub proof fn lemma_ws_byte_exclusive(s: Seq<u8>, c1: u8, c2: u8)
    ensures
        spec_ws_byte(s, c1) is Ok && spec_ws_byte(s, c2) is Ok ==> c1 == c2,
{
}

/// The escaped-text scan consumes at most its input.
pub proof fn lemma_escaped_bound(s: Seq<u8>, pos: nat)
    ensures
        spec_escaped_from(s, pos) matches Ok((p, v)) ==> p <= s.len() && v == s.take(p as int),
    decreases s.len() - pos,
{
    reveal(spec_escaped_from);
    if pos < s.len() {
        let i = s.skip(pos as int);
        lemma_take_until_bound(i, Stop::NonAlphanumeric);
        if let Ok((k, _)) = spec_take_until1(i, Stop::NonAlphanumeric) {
            if pos + k < s.len() && k != 0 {
                lemma_escaped_bound(s, pos + k);
            }
        } else if let Ok((m, _)) = spec_one_of(i.skip(1), escapable_bytes()) {
            if 1 < i.len() && pos + 1 + m < s.len() {
                lemma_escaped_bound(s, pos + 1 + m);
            }
        }
    }
}

/// The escaped-text scan keeps a decided outcome when more input follows.
pub proof fn lemma_escaped_decided(s: Seq<u8>, t: Seq<u8>, pos: nat)
    ensures
        is_decided(spec_escaped_from(s, pos)) ==> spec_escaped_from(s + t, pos)
            == spec_escaped_from(s, pos),
    decreases s.len() - pos,
{
    reveal(spec_escaped_from);
    if pos < s.len() {
        let i = s.skip(pos as int);
        lemma_skip_append(s, t, pos as int);
        lemma_take_until_decided(i, t, Stop::NonAlphanumeric);
        lemma_take_until_bound(i, Stop::NonAlphanumeric);
        assert((i + t)[0] == i[0]);
        match spec_take_until1(i, Stop::NonAlphanumeric) {
            Ok((k, _)) => {
                if pos + k < s.len() && k != 0 {
                    lemma_escaped_decided(s, t, pos + k);
                }
            },
            Err(ParseError::Error) => {
                if i[0] == BACKSLASH && 1 < i.len() {
                    lemma_skip_append(i, t, 1);
                    lemma_byte_decided(i.skip(1), t, 0, escapable_bytes());
                    if let Ok((m, _)) = spec_one_of(i.skip(1), escapable_bytes()) {
                        if pos + 1 + m < s.len() {
                            lemma_escaped_decided(s, t, pos + 1 + m);
                        }
                    }
                }
            },
            Err(_) => {},
        }
    }
}

/// The raw text of a string keeps a decided outcome when more input follows.
pub proof fn lemma_parse_str_decided(s: Seq<u8>, t: Seq<u8>)
    ensures
        is_decided(spec_parse_str(s)) ==> spec_parse_str(s + t) == spec_parse_str(s),
        spec_parse_str(s) matches Ok((p, v)) ==> p <= s.len() && v == s.take(p as int),
{
    lemma_escaped_decided(s, t, 0);
    lemma_escaped_bound(s, 0);
}

/// A quoted raw string keeps a decided outcome when more input follows.
pub proof fn lemma_parse_string_decided(s: Seq<u8>, t: Seq<u8>)
    ensures
        is_decided(spec_parse_string(s)) ==> spec_parse_string(s + t) == spec_parse_string(s),
        is_decided(spec_string_old(s)) ==> spec_string_old(s + t) == spec_string_old(s),
{
    lemma_byte_decided(s, t, QUOTE, Seq::empty());
    if let Ok((n1, _)) = spec_byte(s, QUOTE) {
        let u = s.skip(n1 as int);
        lemma_skip_append(s, t, n1 as int);
        lemma_parse_str_decided(u, t);
        if let Ok((n2, _)) = spec_parse_str(u) {
            lemma_skip_append(s, t, (n1 + n2) as int);
            lemma_byte_decided(s.skip((n1 + n2) as int), t, QUOTE, Seq::empty());
        }
    }
}

/// A run of plain characters keeps a decided outcome when more input follows.
pub proof fn lemma_literal_decided(s: Seq<u8>, t: Seq<u8>)
    ensures
        is_decided(spec_parse_literal(s)) ==> spec_parse_literal(s + t) == spec_parse_literal(s),
        is_decided(spec_parse_fragment(s)) ==> spec_parse_fragment(s + t) == spec_parse_fragment(
            s,
        ),
{
    lemma_take_until_decided(s, t, Stop::QuoteOrBackslash);
}

/// The fragments of a string keep a decided outcome when more input follows.
pub proof fn lemma_fragments_decided(s: Seq<u8>, t: Seq<u8>, pos: nat, acc: Seq<char>)
    requires
        pos <= s.len(),
    ensures
        is_decided(spec_fragments_from(s, pos, acc)) ==> spec_fragments_from(s + t, pos, acc)
            == spec_fragments_from(s, pos, acc),
    decreases s.len() - pos,
{
    reveal(spec_fragments_from);
    lemma_skip_append(s, t, pos as int);
    lemma_literal_decided(s.skip(pos as int), t);
    lemma_fragment_bound(s.skip(pos as int));
    if let Ok((k, f)) = spec_parse_fragment(s.skip(pos as int)) {
        if k > 0 {
            lemma_fragments_decided(s, t, pos + k, acc + f);
        }
    }
}

/// A string keeps a decided outcome when more input follows.
pub proof fn lemma_string_decided(s: Seq<u8>, t: Seq<u8>)
    ensures
        is_decided(spec_string(s)) ==> spec_string(s + t) == spec_string(s),
{
    reveal(spec_string);
    lemma_byte_decided(s, t, QUOTE, Seq::empty());
    if let Ok((n1, _)) = spec_byte(s, QUOTE) {
        lemma_fragments_decided(s, t, n1, Seq::empty());
        lemma_fragments_bound(s, n1, Seq::empty());
        if let Ok((n2, _)) = spec_fragments_from(s, n1, Seq::empty()) {
            lemma_skip_append(s, t, n2 as int);
            lemma_byte_decided(s.skip(n2 as int), t, QUOTE, Seq::empty());
        }
    }
}

/// Spaces, and spaces then one byte, keep a decided outcome when more
/// input follows.
pub proof fn lemma_ws_byte_decided(s: Seq<u8>, t: Seq<u8>, c: u8)
    ensures
        is_decided(spec_sp_trn(s)) ==> spec_sp_trn(s + t) == spec_sp_trn(s),
        is_decided(spec_ws_byte(s, c)) ==> spec_ws_byte(s + t, c) == spec_ws_byte(s, c),
{
    lemma_take_until_decided(s, t, Stop::NonSpace);
    lemma_take_until_bound(s, Stop::NonSpace);
    if let Ok((k, _)) = spec_sp_trn(s) {
        lemma_skip_append(s, t, k as int);
        lemma_byte_decided(s.skip(k as int), t, c, Seq::empty());
    }
}

/// `null`, `true` and `false` keep a decided outcome when more input follows.
pub proof fn lemma_words_decided(s: Seq<u8>, t: Seq<u8>)
    ensures
        is_decided(spec_null(s)) ==> spec_null(s + t) == spec_null(s),
        is_decided(spec_boolean(s)) ==> spec_boolean(s + t) == spec_boolean(s),
{
    lemma_tag_decided(s, t, null_bytes());
    lemma_tag_decided(s, t, true_bytes());
    lemma_tag_decided(s, t, false_bytes());
}

/// At the start of `x`, nom's float recogniser recognises numbers within
/// the input, and its decided outcomes do not change when more input follows.
pub open spec fn float_streams_at(x: Seq<u8>) -> bool {
    &&& (float_extent(x) matches Ok(n) ==> n <= x.len())
    &&& (float_extent(x) != Err::<usize, ParseError>(ParseError::Incomplete) ==> forall|t: Seq<u8>|
        #[trigger] float_extent(x + t) == float_extent(x))
}

/// [`float_streams_at`] holds at every position of `s`.
pub open spec fn float_streams(s: Seq<u8>) -> bool {
    forall|i: int| 0 <= i <= s.len() ==> #[trigger] float_streams_at(s.skip(i))
}

/// [`float_streams`] holds of every suffix of an input where it holds.
pub proof fn lemma_float_streams_suffix(s: Seq<u8>, j: int)
    requires
        float_streams(s),
        0 <= j <= s.len(),
    ensures
        float_streams(s.skip(j)),
{
    assert forall|i: int| 0 <= i <= s.skip(j).len() implies #[trigger] float_streams_at(
        s.skip(j).skip(i),
    ) by {
        assert(s.skip(j).skip(i) =~= s.skip(j + i));
        assert(float_streams_at(s.skip(j + i)));
    }
}

/// A number keeps a decided outcome when more input follows, where nom's
/// float recogniser streams.
pub proof fn lemma_number_decided(s: Seq<u8>, t: Seq<u8>)
    requires
        float_streams(s),
    ensures
        is_decided(spec_number(s)) ==> spec_number(s + t) == spec_number(s),
{
    assert(s.skip(0) =~= s);
    assert(float_streams_at(s.skip(0)));
    if float_extent(s) != Err::<usize, ParseError>(ParseError::Incomplete) {
        assert(float_extent(s + t) == float_extent(s));
        if let Ok(n) = float_extent(s) {
            lemma_skip_append(s, t, n as int);
        }
    }
}

/// Parsing is stable under more input: once [`json_value`] decides on the
/// bytes at hand, the bytes that follow do not change its outcome (where
/// nom's float recogniser streams, see [`float_streams`]).
pub proof fn lemma_json_value_decided(s: Seq<u8>, t: Seq<u8>)
    requires
        float_streams(s),
    ensures
        is_decided(spec_json_value(s)) ==> spec_json_value(s + t) == spec_json_value(s),
    decreases s.len() as int, 2int,
{
    reveal(spec_json_value);
    reveal(spec_array);
    reveal(spec_hash);
    lemma_ws_byte_decided(s, t, 0);
    lemma_take_until_bound(s, Stop::NonSpace);
    if let Ok((k, _)) = spec_sp_trn(s) {
        let u = s.skip(k as int);
        lemma_skip_append(s, t, k as int);
        lemma_float_streams_suffix(s, k as int);
        lemma_words_decided(u, t);
        lemma_number_decided(u, t);
        lemma_string_decided(u, t);
        lemma_array_decided(u, t);
        lemma_hash_decided(u, t);
    }
}

/// An array element keeps a decided outcome when more input follows.
pub proof fn lemma_element_decided(w: Seq<u8>, t: Seq<u8>)
    requires
        float_streams(w),
    ensures
        is_decided(spec_element(w)) ==> spec_element(w + t) == spec_element(w),
    decreases w.len() as int, 3int,
{
    reveal(spec_element);
    reveal(spec_json_value);
    lemma_ws_byte_decided(w, t, 0);
    lemma_take_until_bound(w, Stop::NonSpace);
    if let Ok((k, _)) = spec_sp_trn(w) {
        lemma_skip_append(w, t, k as int);
        lemma_float_streams_suffix(w, k as int);
        lemma_json_value_decided(w.skip(k as int), t);
    }
}

/// The elements of an array keep a decided outcome when more input follows.
pub proof fn lemma_values_from_decided(u: Seq<u8>, t: Seq<u8>, pos: nat, acc: Seq<Json>)
    requires
        float_streams(u),
        pos <= u.len(),
    ensures
        is_decided(spec_values_from(u, pos, acc)) ==> spec_values_from(u + t, pos, acc)
            == spec_values_from(u, pos, acc),
    decreases remaining(u, pos), 3int,
{
    reveal(spec_values_from);
    reveal(spec_element);
    lemma_skip_append(u, t, pos as int);
    lemma_ws_byte_decided(u.skip(pos as int), t, COMMA);
    lemma_ws_byte_bound(u.skip(pos as int), COMMA);
    if let Ok((ns, _)) = spec_ws_byte(u.skip(pos as int), COMMA) {
        if ns > 0 {
            let e = pos + ns;
            lemma_skip_append(u, t, e as int);
            lemma_float_streams_suffix(u, e as int);
            lemma_element_decided(u.skip(e as int), t);
            lemma_element_bound(u.skip(e as int));
            if let Ok((ne, v)) = spec_element(u.skip(e as int)) {
                lemma_values_from_decided(u, t, e + ne, acc.push(v));
            }
        }
    }
}

/// The elements of an array keep a decided outcome when more input follows.
pub proof fn lemma_values_decided(u: Seq<u8>, t: Seq<u8>)
    requires
        float_streams(u),
    ensures
        is_decided(spec_values(u)) ==> spec_values(u + t) == spec_values(u),
    decreases u.len() as int, 4int,
{
    reveal(spec_values);
    reveal(spec_values_from);
    reveal(spec_element);
    lemma_element_decided(u, t);
    lemma_element_bound(u);
    if let Ok((n1, v)) = spec_element(u) {
        lemma_values_from_decided(u, t, n1, seq![v]);
    }
}

/// Once [`array`] decides on the bytes at hand, the bytes that follow do
/// not change its outcome (where nom's float recogniser streams).
pub proof fn lemma_array_decided(s: Seq<u8>, t: Seq<u8>)
    requires
        float_streams(s),
    ensures
        is_decided(spec_array(s)) ==> spec_array(s + t) == spec_array(s),
    decreases s.len() as int, 0int,
{
    reveal(spec_array);
    reveal(spec_values);
    lemma_byte_decided(s, t, LBRACKET, Seq::empty());
    if let Ok((n1, _)) = spec_byte(s, LBRACKET) {
        lemma_skip_append(s, t, n1 as int);
        lemma_float_streams_suffix(s, n1 as int);
        lemma_values_decided(s.skip(n1 as int), t);
        lemma_values_bound(s.skip(n1 as int));
        if let Ok((n2, _)) = spec_values(s.skip(n1 as int)) {
            lemma_skip_skip(s, n1 as int, n2 as int);
            lemma_skip_append(s, t, (n1 + n2) as int);
            lemma_ws_byte_decided(s.skip((n1 + n2) as int), t, RBRACKET);
        }
    }
}

/// A key and its colon keep a decided outcome when more input follows.
pub proof fn lemma_key_prefix_decided(w: Seq<u8>, t: Seq<u8>)
    ensures
        is_decided(spec_key_prefix(w)) ==> spec_key_prefix(w + t) == spec_key_prefix(w),
{
    lemma_ws_byte_decided(w, t, 0);
    lemma_take_until_bound(w, Stop::NonSpace);
    if let Ok((k1, _)) = spec_sp_trn(w) {
        lemma_skip_append(w, t, k1 as int);
        lemma_string_decided(w.skip(k1 as int), t);
        lemma_string_bound(w.skip(k1 as int));
        if let Ok((n2, _)) = spec_string(w.skip(k1 as int)) {
            lemma_skip_append(w, t, (k1 + n2) as int);
            lemma_ws_byte_decided(w.skip((k1 + n2) as int), t, COLON);
        }
    }
}

/// A key-value pair keeps a decided outcome when more input follows.
pub proof fn lemma_key_value_decided(w: Seq<u8>, t: Seq<u8>)
    requires
        float_streams(w),
    ensures
        is_decided(spec_key_value(w)) ==> spec_key_value(w + t) == spec_key_value(w),
    decreases w.len() as int, 3int,
{
    reveal(spec_key_value);
    reveal(spec_element);
    lemma_key_prefix_decided(w, t);
    lemma_key_prefix_bound(w);
    if let Ok((n, _)) = spec_key_prefix(w) {
        lemma_skip_append(w, t, n as int);
        lemma_float_streams_suffix(w, n as int);
        lemma_element_decided(w.skip(n as int), t);
    }
}

/// The entries of an object keep a decided outcome when more input follows.
pub proof fn lemma_pairs_from_decided(
    u: Seq<u8>,
    t: Seq<u8>,
    pos: nat,
    acc: Seq<(Seq<char>, Json)>,
)
    requires
        float_streams(u),
        pos <= u.len(),
    ensures
        is_decided(spec_pairs_from(u, pos, acc)) ==> spec_pairs_from(u + t, pos, acc)
            == spec_pairs_from(u, pos, acc),
    decreases remaining(u, pos), 3int,
{
    reveal(spec_pairs_from);
    reveal(spec_key_value);
    lemma_skip_append(u, t, pos as int);
    lemma_ws_byte_decided(u.skip(pos as int), t, COMMA);
    lemma_ws_byte_bound(u.skip(pos as int), COMMA);
    if let Ok((ns, _)) = spec_ws_byte(u.skip(pos as int), COMMA) {
        if ns > 0 {
            let e = pos + ns;
            lemma_skip_append(u, t, e as int);
            lemma_float_streams_suffix(u, e as int);
            lemma_key_value_decided(u.skip(e as int), t);
            lemma_key_value_bound(u.skip(e as int));
            if let Ok((ne, kv)) = spec_key_value(u.skip(e as int)) {
                lemma_pairs_from_decided(u, t, e + ne, acc.push(kv));
            }
        }
    }
}

/// The entries of an object keep a decided outcome when more input follows.
pub proof fn lemma_pairs_decided(u: Seq<u8>, t: Seq<u8>)
    requires
        float_streams(u),
    ensures
        is_decided(spec_pairs(u)) ==> spec_pairs(u + t) == spec_pairs(u),
    decreases u.len() as int, 4int,
{
    reveal(spec_pairs);
    reveal(spec_pairs_from);
    reveal(spec_key_value);
    lemma_key_value_decided(u, t);
    lemma_key_value_bound(u);
    if let Ok((n1, kv)) = spec_key_value(u) {
        lemma_pairs_from_decided(u, t, n1, seq![kv]);
    }
}

/// Once [`hash`] decides on the bytes at hand, the bytes that follow do
/// not change its outcome (where nom's float recogniser streams).
pub proof fn lemma_hash_decided(s: Seq<u8>, t: Seq<u8>)
    requires
        float_streams(s),
    ensures
        is_decided(spec_hash(s)) ==> spec_hash(s + t) == spec_hash(s),
    decreases s.len() as int, 0int,
{
    reveal(spec_hash);
    reveal(spec_pairs);
    lemma_byte_decided(s, t, LBRACE, Seq::empty());
    if let Ok((n1, _)) = spec_byte(s, LBRACE) {
        lemma_skip_append(s, t, n1 as int);
        lemma_float_streams_suffix(s, n1 as int);
        lemma_pairs_decided(s.skip(n1 as int), t);
        lemma_pairs_bound(s.skip(n1 as int));
        if let Ok((n2, _)) = spec_pairs(s.skip(n1 as int)) {
            lemma_skip_skip(s, n1 as int, n2 as int);
            lemma_skip_append(s, t, (n1 + n2) as int);
            lemma_ws_byte_decided(s.skip((n1 + n2) as int), t, RBRACE);
        }
    }
}

} // verus!
