pub mod external;
pub mod laws;
pub mod primitives;
pub mod streaming;

use vstd::prelude::*;

verus! {

/// Why a streaming parser did not produce a value.
///
/// `Incomplete` asks for more input, `Error` lets an alternative be tried,
/// `Failure` ends the parse of the enclosing value.
#[derive(Debug, Clone, Copy, PartialEq, Eq, Structural)]
pub enum ParseError {
    Incomplete,
    Error,
    Failure,
}

/// The mathematical outcome of a parser: the number of bytes consumed and the
/// value produced, or why none was produced.
pub type SpecResult<V> = Result<(nat, V), ParseError>;

/// The outcome of an executable parser: the unconsumed rest of the input and
/// the value produced.
pub type PResult<'a, T> = Result<(&'a [u8], T), ParseError>;

/// `r` is the executable counterpart of the outcome `s` on `input`.
pub open spec fn agrees<'a, T: View>(input: Seq<u8>, r: PResult<'a, T>, s: SpecResult<T::V>) -> bool {
    match r {
        Ok((rest, v)) => match s {
            Ok((n, sv)) => n <= input.len() && rest@ == input.skip(n as int) && v@ == sv,
            Err(_) => false,
        },
        Err(e) => s == Err::<(nat, T::V), ParseError>(e),
    }
}

/// As [`agrees`], with `f` giving the model of the executable value.
pub open spec fn agrees_by<'a, T, V>(
    input: Seq<u8>,
    r: PResult<'a, T>,
    s: SpecResult<V>,
    f: spec_fn(T) -> V,
) -> bool {
    match r {
        Ok((rest, v)) => match s {
            Ok((n, sv)) => n <= input.len() && rest@ == input.skip(n as int) && f(v) == sv,
            Err(_) => false,
        },
        Err(e) => s == Err::<(nat, V), ParseError>(e),
    }
}

/// The first outcome, or the second where the first is an `Error`.
pub open spec fn alt<V>(first: SpecResult<V>, second: SpecResult<V>) -> SpecResult<V> {
    match first {
        Err(ParseError::Error) => second,
        other => other,
    }
}

/// The outcome with its value mapped by `f`.
pub open spec fn map_ok<V, W>(r: SpecResult<V>, f: spec_fn(V) -> W) -> SpecResult<W> {
    match r {
        Ok((n, v)) => Ok((n, f(v))),
        Err(e) => Err(e),
    }
}

/// The outcome does not ask for more input.
pub open spec fn is_decided<V>(r: SpecResult<V>) -> bool {
    !(r matches Err(ParseError::Incomplete))
}

/// Replaces an `Error` by a `Failure`, as a cut does.
pub open spec fn cut_error(e: ParseError) -> ParseError {
    if e == ParseError::Error {
        ParseError::Failure
    } else {
        e
    }
}

pub fn cut(e: ParseError) -> (r: ParseError)
    ensures
        r == cut_error(e),
{
    match e {
        ParseError::Error => ParseError::Failure,
        other => other,
    }
}

} // verus!
