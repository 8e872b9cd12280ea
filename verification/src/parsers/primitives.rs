//! The byte-level building blocks of the streaming grammar: each one
//! consumes a prefix of its input, asks for more input when the prefix it
//! looks at runs to the end, and fails with `Error` otherwise.
use super::{agrees, ParseError, PResult, SpecResult};
use vstd::prelude::*;
use vstd::slice::slice_subrange;

verus! {

/// A byte that ends a scan.
#[derive(Debug, Clone, Copy, PartialEq, Eq, Structural)]
pub enum Stop {
    /// Any byte that is not a space, tab, carriage return or line feed.
    NonSpace,
    /// Any byte that is not an ASCII letter or digit.
    NonAlphanumeric,
    /// A double quote or a backslash.
    QuoteOrBackslash,
}

/// Space, tab, carriage return or line feed.
pub open spec fn is_space(b: u8) -> bool {
    b == 0x20 || b == 0x09 || b == 0x0d || b == 0x0a
}

/// An ASCII letter or digit.
pub open spec fn is_alphanumeric(b: u8) -> bool {
    (0x41 <= b <= 0x5a) || (0x61 <= b <= 0x7a) || (0x30 <= b <= 0x39)
}

pub open spec fn stops(stop: Stop, b: u8) -> bool {
    match stop {
        Stop::NonSpace => !is_space(b),
        Stop::NonAlphanumeric => !is_alphanumeric(b),
        Stop::QuoteOrBackslash => b == 0x22 || b == 0x5c,
    }
}

pub fn is_stop(stop: Stop, b: u8) -> (r: bool)
    ensures
        r == stops(stop, b),
{
    match stop {
        Stop::NonSpace => !(b == 0x20 || b == 0x09 || b == 0x0d || b == 0x0a),
        Stop::NonAlphanumeric => !((0x41 <= b && b <= 0x5a) || (0x61 <= b && b <= 0x7a) || (0x30
            <= b && b <= 0x39)),
        Stop::QuoteOrBackslash => b == 0x22 || b == 0x5c,
    }
}

/// `k` is the position of the first byte of `s` that ends the scan.
pub open spec fn is_first_stop(s: Seq<u8>, stop: Stop, k: int) -> bool {
    &&& 0 <= k < s.len()
    &&& stops(stop, s[k])
    &&& forall|j: int| 0 <= j < k ==> !stops(stop, #[trigger] s[j])
}

/// The position of the first byte of `s` that ends the scan, if there is one.
#[verifier::opaque]
pub open spec fn first_stop(s: Seq<u8>, stop: Stop) -> Option<nat> {
    if exists|k: int| is_first_stop(s, stop, k) {
        Some((choose|k: int| is_first_stop(s, stop, k)) as nat)
    } else {
        None
    }
}

/// A stop at `k` with no stop before it is the first stop.
pub proof fn lemma_first_stop(s: Seq<u8>, stop: Stop, k: int)
    requires
        is_first_stop(s, stop, k),
    ensures
        first_stop(s, stop) == Some(k as nat),
{
    reveal(first_stop);
    let c = choose|c: int| is_first_stop(s, stop, c);
    if c < k {
        assert(!stops(stop, s[c]));
    } else if k < c {
        assert(!stops(stop, s[k]));
    }
}

/// Where some byte stops the scan, a first one does.
pub proof fn lemma_exists_first_stop(s: Seq<u8>, stop: Stop, j: int)
    requires
        0 <= j < s.len(),
        stops(stop, s[j]),
    ensures
        exists|k: int| is_first_stop(s, stop, k),
    decreases j,
{
    if exists|i: int| 0 <= i < j && stops(stop, #[trigger] s[i]) {
        let i = choose|i: int| 0 <= i < j && stops(stop, #[trigger] s[i]);
        lemma_exists_first_stop(s, stop, i);
    } else {
        assert(is_first_stop(s, stop, j));
    }
}

/// Where no byte of the input is a stop, there is no first stop.
pub proof fn lemma_no_stop(s: Seq<u8>, stop: Stop)
    requires
        forall|j: int| 0 <= j < s.len() ==> !stops(stop, #[trigger] s[j]),
    ensures
        first_stop(s, stop) is None,
{
    reveal(first_stop);
}

/// Finds the first byte of `s` that ends the scan.
pub fn find_stop(s: &[u8], stop: Stop) -> (r: Option<usize>)
    ensures
        match r {
            Some(k) => first_stop(s@, stop) == Some(k as nat),
            None => first_stop(s@, stop) is None,
        },
{
    let mut i: usize = 0;
    while i < s.len()
        invariant
            0 <= i <= s.len(),
            forall|j: int| 0 <= j < i ==> !stops(stop, #[trigger] s@[j]),
        decreases s.len() - i,
    {
        if is_stop(stop, s[i]) {
            proof {
                lemma_first_stop(s@, stop, i as int);
            }
            return Some(i);
        }
        i += 1;
    }
    proof {
        lemma_no_stop(s@, stop);
    }
    None
}

/// The bytes before the first stop; more input is needed when no byte stops
/// the scan (the prefix taken may be empty).
pub open spec fn spec_take_until(s: Seq<u8>, stop: Stop) -> SpecResult<Seq<u8>> {
    match first_stop(s, stop) {
        Some(k) => Ok((k, s.take(k as int))),
        None => Err(ParseError::Incomplete),
    }
}

/// As [`spec_take_until`], but an empty prefix is an `Error`.
pub open spec fn spec_take_until1(s: Seq<u8>, stop: Stop) -> SpecResult<Seq<u8>> {
    match first_stop(s, stop) {
        Some(k) => if k == 0 {
            Err(ParseError::Error)
        } else {
            Ok((k, s.take(k as int)))
        },
        None => Err(ParseError::Incomplete),
    }
}

/// Splits `input` at position `n`.
pub fn split<'a>(input: &'a [u8], n: usize) -> (r: (&'a [u8], &'a [u8]))
    requires
        n <= input@.len(),
    ensures
        r.0@ == input@.skip(n as int),
        r.1@ == input@.take(n as int),
{
    let rest = slice_subrange(input, n, input.len());
    let taken = slice_subrange(input, 0, n);
    (rest, taken)
}

pub fn take_until<'a>(input: &'a [u8], stop: Stop) -> (r: PResult<'a, &'a [u8]>)
    ensures
        agrees(input@, r, spec_take_until(input@, stop)),
{
    proof {
        lemma_take_until_bound(input@, stop);
    }
    match find_stop(input, stop) {
        Some(k) => Ok(split(input, k)),
        None => Err(ParseError::Incomplete),
    }
}

pub fn take_until1<'a>(input: &'a [u8], stop: Stop) -> (r: PResult<'a, &'a [u8]>)
    ensures
        agrees(input@, r, spec_take_until1(input@, stop)),
{
    proof {
        lemma_take_until_bound(input@, stop);
    }
    match find_stop(input, stop) {
        Some(k) => if k == 0 {
            Err(ParseError::Error)
        } else {
            Ok(split(input, k))
        },
        None => Err(ParseError::Incomplete),
    }
}

/// Matches the bytes `t` at the start of the input. A shorter input that
/// agrees with `t` as far as it goes asks for more.
#[verifier::opaque]
pub open spec fn spec_tag(s: Seq<u8>, t: Seq<u8>) -> SpecResult<Seq<u8>> {
    if exists|j: int| 0 <= j < s.len() && j < t.len() && s[j] != t[j] {
        Err(ParseError::Error)
    } else if s.len() >= t.len() {
        Ok((t.len(), s.take(t.len() as int)))
    } else {
        Err(ParseError::Incomplete)
    }
}

pub fn tag<'a>(input: &'a [u8], t: &[u8]) -> (r: PResult<'a, &'a [u8]>)
    ensures
        agrees(input@, r, spec_tag(input@, t@)),
{
    proof {
        reveal(spec_tag);
    }
    let mut i: usize = 0;
    while i < input.len() && i < t.len()
        invariant
            0 <= i <= input@.len(),
            i <= t@.len(),
            forall|j: int| 0 <= j < i ==> input@[j] == t@[j],
        decreases input.len() - i,
    {
        proof {
            reveal(spec_tag);
        }
        if input[i] != t[i] {
            return Err(ParseError::Error);
        }
        i += 1;
    }
    if input.len() >= t.len() {
        Ok(split(input, t.len()))
    } else {
        Err(ParseError::Incomplete)
    }
}

/// Matches the single byte `c`.
pub open spec fn spec_byte(s: Seq<u8>, c: u8) -> SpecResult<u8> {
    if s.len() == 0 {
        Err(ParseError::Incomplete)
    } else if s[0] == c {
        Ok((1, c))
    } else {
        Err(ParseError::Error)
    }
}

pub fn byte<'a>(input: &'a [u8], c: u8) -> (r: PResult<'a, u8>)
    ensures
        agrees(input@, r, spec_byte(input@, c)),
{
    if input.len() == 0 {
        Err(ParseError::Incomplete)
    } else if input[0] == c {
        Ok((split(input, 1).0, c))
    } else {
        Err(ParseError::Error)
    }
}

/// Matches one byte out of `list`.
pub open spec fn spec_one_of(s: Seq<u8>, list: Seq<u8>) -> SpecResult<u8> {
    if s.len() == 0 {
        Err(ParseError::Incomplete)
    } else if list.contains(s[0]) {
        Ok((1, s[0]))
    } else {
        Err(ParseError::Error)
    }
}

pub fn one_of<'a>(input: &'a [u8], list: &[u8]) -> (r: PResult<'a, u8>)
    ensures
        agrees(input@, r, spec_one_of(input@, list@)),
{
    if input.len() == 0 {
        return Err(ParseError::Incomplete);
    }
    let b = input[0];
    let mut i: usize = 0;
    while i < list.len()
        invariant
            0 <= i <= list@.len(),
            input@.len() > 0,
            b == input@[0],
            forall|j: int| 0 <= j < i ==> list@[j] != b,
        decreases list.len() - i,
    {
        if list[i] == b {
            assert(list@.contains(b));
            return Ok((split(input, 1).0, b));
        }
        i += 1;
    }
    Err(ParseError::Error)
}

} // verus!

verus! {

/// The scans up to a stop consume at most their input.
pub proof fn lemma_take_until_bound(s: Seq<u8>, stop: Stop)
    ensures
        spec_take_until(s, stop) matches Ok((k, _)) ==> k <= s.len(),
        spec_take_until1(s, stop) matches Ok((k, _)) ==> 0 < k <= s.len(),
{
    reveal(first_stop);
    if exists|k: int| is_first_stop(s, stop, k) {
        let k = choose|k: int| is_first_stop(s, stop, k);
        lemma_first_stop(s, stop, k);
    }
}

/// Skipping twice is skipping the sum.
pub proof fn lemma_skip_skip(s: Seq<u8>, a: int, b: int)
    requires
        0 <= a,
        0 <= b,
        a + b <= s.len(),
    ensures
        s.skip(a).skip(b) == s.skip(a + b),
{
    assert(s.skip(a).skip(b) =~= s.skip(a + b));
}

/// A tag consumes at most its input.
pub proof fn lemma_tag_bound(s: Seq<u8>, t: Seq<u8>)
    ensures
        spec_tag(s, t) matches Ok((k, _)) ==> k == t.len() && k <= s.len(),
{
    reveal(spec_tag);
}

/// One byte consumes at most its input.
pub proof fn lemma_byte_bound(s: Seq<u8>, c: u8, list: Seq<u8>)
    ensures
        spec_byte(s, c) matches Ok((k, _)) ==> k == 1 && k <= s.len(),
        spec_one_of(s, list) matches Ok((k, _)) ==> k == 1 && k <= s.len(),
{
}

/// A tag of one byte matches where that byte does.
pub proof fn lemma_tag_of_one_byte(s: Seq<u8>, c: u8)
    ensures
        spec_tag(s, seq![c]) == map_byte(spec_byte(s, c), s),
{
    reveal(spec_tag);
    if s.len() > 0 && s[0] != c {
        assert(s[0] != seq![c][0]);
    }
}

/// The outcome of [`spec_byte`] with the byte taken as a one-byte prefix.
pub open spec fn map_byte(r: SpecResult<u8>, s: Seq<u8>) -> SpecResult<Seq<u8>> {
    match r {
        Ok((n, _)) => Ok((n, s.take(n as int))),
        Err(e) => Err(e),
    }
}

/// More input after `s` leaves its prefixes and suffixes as they were.
pub proof fn lemma_skip_append(s: Seq<u8>, t: Seq<u8>, k: int)
    requires
        0 <= k <= s.len(),
    ensures
        (s + t).skip(k) == s.skip(k) + t,
        (s + t).take(k) == s.take(k),
{
    assert((s + t).skip(k) =~= s.skip(k) + t);
    assert((s + t).take(k) =~= s.take(k));
}

/// A scan that found its stop finds the same stop with more input.
pub proof fn lemma_take_until_decided(s: Seq<u8>, t: Seq<u8>, stop: Stop)
    ensures
        spec_take_until(s, stop) != Err::<(nat, Seq<u8>), ParseError>(ParseError::Incomplete)
            ==> spec_take_until(s + t, stop) == spec_take_until(s, stop),
        spec_take_until1(s, stop) != Err::<(nat, Seq<u8>), ParseError>(ParseError::Incomplete)
            ==> spec_take_until1(s + t, stop) == spec_take_until1(s, stop),
{
    if exists|k: int| is_first_stop(s, stop, k) {
        let k = choose|k: int| is_first_stop(s, stop, k);
        lemma_first_stop(s, stop, k);
        assert(is_first_stop(s + t, stop, k));
        lemma_first_stop(s + t, stop, k);
        lemma_skip_append(s, t, k);
    } else {
        reveal(first_stop);
    }
}

/// A tag that matched or failed on `s` does the same with more input.
pub proof fn lemma_tag_decided(s: Seq<u8>, t: Seq<u8>, tg: Seq<u8>)
    ensures
        spec_tag(s, tg) != Err::<(nat, Seq<u8>), ParseError>(ParseError::Incomplete) ==> spec_tag(
            s + t,
            tg,
        ) == spec_tag(s, tg),
{
    reveal(spec_tag);
    if exists|j: int| 0 <= j < s.len() && j < tg.len() && s[j] != tg[j] {
        let j = choose|j: int| 0 <= j < s.len() && j < tg.len() && s[j] != tg[j];
        assert((s + t)[j] == s[j]);
    } else if s.len() >= tg.len() {
        lemma_skip_append(s, t, tg.len() as int);
        assert forall|j: int| 0 <= j < (s + t).len() && j < tg.len() implies (s + t)[j] == tg[j] by {
            assert((s + t)[j] == s[j]);
        }
    }
}

/// One byte that matched or failed on `s` does the same with more input.
pub proof fn lemma_byte_decided(s: Seq<u8>, t: Seq<u8>, c: u8, list: Seq<u8>)
    ensures
        spec_byte(s, c) != Err::<(nat, u8), ParseError>(ParseError::Incomplete) ==> spec_byte(
            s + t,
            c,
        ) == spec_byte(s, c),
        spec_one_of(s, list) != Err::<(nat, u8), ParseError>(ParseError::Incomplete)
            ==> spec_one_of(s + t, list) == spec_one_of(s, list),
{
    if s.len() > 0 {
        assert((s + t)[0] == s[0]);
    }
}

} // verus!
