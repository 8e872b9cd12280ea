//! Streaming the elements of a top-level JSON array one at a time.
use crate::json_value::{Json, JsonValue};
use crate::parsers::primitives::{
    lemma_byte_bound, lemma_skip_append, lemma_skip_skip, lemma_tag_decided, lemma_tag_of_one_byte,
    lemma_take_until_bound, spec_byte, spec_tag, tag, Stop,
};
use crate::parsers::streaming::{
    float_streams, json_value, lemma_element_bound, lemma_float_streams_suffix,
    lemma_json_value_decided, lemma_ws_byte_decided, lemma_json_value_bound, lemma_values_bound, lemma_values_from_bound,
    lemma_ws_byte_bound, lemma_ws_byte_exclusive, sp_trn, spec_array, spec_element,
    spec_json_value, spec_sp_trn, spec_values, spec_values_from, spec_ws_byte, ws_byte, COMMA,
    LBRACKET, RBRACKET,
};
use crate::parsers::{agrees, alt, is_decided, map_ok, PResult, ParseError, SpecResult};
use vstd::prelude::*;

verus! {

/// What the start of the input holds: a whole value, or the opening bracket
/// of an array whose elements follow.
#[derive(Debug)]
pub enum IterValue {
    JsonVal(JsonValue),
    ArrayBegin,
}

pub ghost enum IterValueModel {
    JsonVal(Json),
    ArrayBegin,
}

impl View for IterValue {
    type V = IterValueModel;

    open spec fn view(&self) -> IterValueModel {
        match self {
            IterValue::JsonVal(v) => IterValueModel::JsonVal(v@),
            IterValue::ArrayBegin => IterValueModel::ArrayBegin,
        }
    }
}

/// One step through the elements of an array: an element followed by a
/// comma, the last element with the closing bracket, or the closing bracket
/// alone.
#[derive(Debug, PartialEq)]
pub enum ArrayItem {
    Item(JsonValue),
    LastItem(JsonValue),
    End,
}

pub ghost enum ArrayItemModel {
    Item(Json),
    LastItem(Json),
    End,
}

impl View for ArrayItem {
    type V = ArrayItemModel;

    open spec fn view(&self) -> ArrayItemModel {
        match self {
            ArrayItem::Item(v) => ArrayItemModel::Item(v@),
            ArrayItem::LastItem(v) => ArrayItemModel::LastItem(v@),
            ArrayItem::End => ArrayItemModel::End,
        }
    }
}

/// The byte `[`.
pub open spec fn spec_array_start(s: Seq<u8>) -> SpecResult<()> {
    map_ok(spec_tag(s, seq![0x5bu8]), |t: Seq<u8>| ())
}

pub fn array_start<'a>(input: &'a [u8]) -> (r: PResult<'a, ()>)
    ensures
        agrees(input@, r, spec_array_start(input@)),
{
    let t: [u8; 1] = [0x5b];
    let ts = t.as_slice();
    assert(ts@ =~= seq![0x5bu8]);
    match tag(input, ts) {
        Ok((rest, _)) => Ok((rest, ())),
        Err(e) => Err(e),
    }
}

/// The byte `]`.
pub open spec fn spec_array_end(s: Seq<u8>) -> SpecResult<()> {
    map_ok(spec_tag(s, seq![0x5du8]), |t: Seq<u8>| ())
}

pub fn array_end<'a>(input: &'a [u8]) -> (r: PResult<'a, ()>)
    ensures
        agrees(input@, r, spec_array_end(input@)),
{
    let t: [u8; 1] = [0x5d];
    let ts = t.as_slice();
    assert(ts@ =~= seq![0x5du8]);
    match tag(input, ts) {
        Ok((rest, _)) => Ok((rest, ())),
        Err(e) => Err(e),
    }
}

/// An opening bracket, or else a whole value.
pub open spec fn spec_root(s: Seq<u8>) -> SpecResult<IterValueModel> {
    alt(
        map_ok(spec_array_start(s), |u: ()| IterValueModel::ArrayBegin),
        map_ok(spec_json_value(s), |v: Json| IterValueModel::JsonVal(v)),
    )
}

pub fn root<'a>(input: &'a [u8]) -> (r: PResult<'a, IterValue>)
    ensures
        agrees(input@, r, spec_root(input@)),
{
    match array_start(input) {
        Ok((rest, _)) => {
            return Ok((rest, IterValue::ArrayBegin));
        },
        Err(ParseError::Error) => {},
        Err(e) => {
            return Err(e);
        },
    }
    let (rest, v) = json_value(input)?;
    Ok((rest, IterValue::JsonVal(v)))
}

/// A stream starts with the elements of an array exactly where the input
/// starts with `[`: there [`root`] takes that one byte; at any other first
/// byte it reads the whole value, as [`json_value`] does, or fails as it does.
pub proof fn lemma_root_begins_an_array_only_at_a_bracket(s: Seq<u8>)
    requires
        s.len() > 0,
    ensures
        s[0] == LBRACKET ==> spec_root(s) == Ok::<(nat, IterValueModel), ParseError>(
            (1, IterValueModel::ArrayBegin),
        ),
        s[0] != LBRACKET ==> spec_root(s) == match spec_json_value(s) {
            Ok((n, v)) => Ok::<(nat, IterValueModel), ParseError>((n, IterValueModel::JsonVal(v))),
            Err(e) => Err(e),
        },
{
    lemma_tag_of_one_byte(s, LBRACKET);
}

/// A value, then spaces and the byte `c`.
pub open spec fn spec_value_then(s: Seq<u8>, c: u8) -> SpecResult<Json> {
    match spec_json_value(s) {
        Err(e) => Err(e),
        Ok((n, v)) => match spec_ws_byte(s.skip(n as int), c) {
            Err(e) => Err(e),
            Ok((m, _)) => Ok((n + m, v)),
        },
    }
}

fn value_then<'a>(input: &'a [u8], c: u8) -> (r: PResult<'a, JsonValue>)
    ensures
        agrees(input@, r, spec_value_then(input@, c)),
{
    let (rest1, v) = json_value(input)?;
    let (rest2, _) = ws_byte(rest1, c)?;
    proof {
        lemma_skip_skip(input@, input@.len() - rest1@.len(), rest1@.len() - rest2@.len());
    }
    Ok((rest2, v))
}

/// Spaces, then an element and a comma, else an element and the closing
/// bracket, else the closing bracket alone.
pub open spec fn spec_array_item(s: Seq<u8>) -> SpecResult<ArrayItemModel> {
    match spec_sp_trn(s) {
        Err(e) => Err(e),
        Ok((k, _)) => {
            let t = s.skip(k as int);
            let r = alt(
                map_ok(spec_value_then(t, COMMA), |v: Json| ArrayItemModel::Item(v)),
                alt(
                    map_ok(spec_value_then(t, RBRACKET), |v: Json| ArrayItemModel::LastItem(v)),
                    map_ok(spec_array_end(t), |u: ()| ArrayItemModel::End),
                ),
            );
            match r {
                Ok((n, v)) => Ok((k + n, v)),
                Err(e) => Err(e),
            }
        },
    }
}

pub fn array_item<'a>(input: &'a [u8]) -> (r: PResult<'a, ArrayItem>)
    ensures
        agrees(input@, r, spec_array_item(input@)),
{
    let (t, _) = sp_trn(input)?;
    let ghost k = input@.len() - t@.len();
    match value_then(t, COMMA) {
        Ok((rest, v)) => {
            proof {
                lemma_skip_skip(input@, k, t@.len() - rest@.len());
            }
            return Ok((rest, ArrayItem::Item(v)));
        },
        Err(ParseError::Error) => {},
        Err(e) => {
            return Err(e);
        },
    }
    match value_then(t, RBRACKET) {
        Ok((rest, v)) => {
            proof {
                lemma_skip_skip(input@, k, t@.len() - rest@.len());
            }
            return Ok((rest, ArrayItem::LastItem(v)));
        },
        Err(ParseError::Error) => {},
        Err(e) => {
            return Err(e);
        },
    }
    let (rest, _) = array_end(t)?;
    proof {
        lemma_skip_skip(input@, k, t@.len() - rest@.len());
    }
    Ok((rest, ArrayItem::End))
}

/// Once [`value_then`] decides on the bytes at hand, more bytes after them
/// do not change its outcome (where nom's float recogniser streams, see
/// [`float_streams`]).
pub proof fn lemma_value_then_decided(s: Seq<u8>, t: Seq<u8>, c: u8)
    requires
        float_streams(s),
    ensures
        is_decided(spec_value_then(s, c)) ==> spec_value_then(s + t, c) == spec_value_then(s, c),
{
    lemma_json_value_decided(s, t);
    lemma_json_value_bound(s);
    if let Ok((n, _)) = spec_json_value(s) {
        lemma_skip_append(s, t, n as int);
        lemma_ws_byte_decided(s.skip(n as int), t, c);
    }
}

/// A step through an array's elements is stable: once [`array_item`]
/// decides on the bytes read so far, reading more bytes does not change
/// what it reads (where nom's float recogniser streams, see
/// [`float_streams`]).
pub proof fn lemma_array_item_decided(s: Seq<u8>, t: Seq<u8>)
    requires
        float_streams(s),
    ensures
        is_decided(spec_array_item(s)) ==> spec_array_item(s + t) == spec_array_item(s),
{
    lemma_ws_byte_decided(s, t, 0);
    lemma_take_until_bound(s, Stop::NonSpace);
    if let Ok((k, _)) = spec_sp_trn(s) {
        let u = s.skip(k as int);
        lemma_skip_append(s, t, k as int);
        lemma_float_streams_suffix(s, k as int);
        lemma_value_then_decided(u, t, COMMA);
        lemma_value_then_decided(u, t, RBRACKET);
        lemma_tag_decided(u, t, seq![0x5du8]);
    }
}

/// The start of a stream is stable: once [`root`] decides on the bytes read
/// so far, reading more bytes does not change what it reads (where nom's
/// float recogniser streams, see [`float_streams`]).
pub proof fn lemma_root_decided(s: Seq<u8>, t: Seq<u8>)
    requires
        float_streams(s),
    ensures
        is_decided(spec_root(s)) ==> spec_root(s + t) == spec_root(s),
{
    lemma_tag_decided(s, t, seq![0x5bu8]);
    lemma_json_value_decided(s, t);
}

/// Streams the elements of an array whose opening bracket has been read
/// from `reader`: each step reads one [`ArrayItem`] and hands on its element.
pub struct JsonIterator<R> {
    reader: R,
    seen_last: bool,
}

/// Whether the iterator is finished after a step that read `parsed`: it is
/// once the last element has been read.
pub open spec fn finished_after(finished: bool, parsed: Option<ArrayItemModel>) -> bool {
    finished || parsed matches Some(ArrayItemModel::LastItem(_))
}

/// The element that a step hands on, given what it read.
pub open spec fn element_of(parsed: Option<ArrayItemModel>) -> Option<Json> {
    match parsed {
        Some(ArrayItemModel::Item(v)) => Some(v),
        Some(ArrayItemModel::LastItem(v)) => Some(v),
        _ => None,
    }
}

pub open spec fn option_model(v: Option<JsonValue>) -> Option<Json> {
    match v {
        Some(x) => Some(x@),
        None => None,
    }
}

pub open spec fn parsed_model(p: Option<ArrayItem>) -> Option<ArrayItemModel> {
    match p {
        Some(x) => Some(x@),
        None => None,
    }
}

impl<R> JsonIterator<R> {
    /// The reader that the elements come from.
    pub closed spec fn source(self) -> R {
        self.reader
    }

    /// The last element has been handed on.
    pub closed spec fn is_finished(self) -> bool {
        self.seen_last
    }

    pub fn new(reader: R) -> (r: Self)
        ensures
            r.source() == reader,
            !r.is_finished(),
    {
        Self { reader, seen_last: false }
    }

    /// Whether another item is to be read; once the last element has been
    /// handed on there is none.
    pub fn wants_item(&self) -> (r: bool)
        ensures
            r == !self.is_finished(),
    {
        !self.seen_last
    }

    /// The reader, for the next item to be read from it.
    pub fn reader_mut(&mut self) -> (r: &mut R)
        ensures
            *r == old(self).source(),
            final(self).source() == *final(r),
            final(self).is_finished() == old(self).is_finished(),
    {
        &mut self.reader
    }

    /// Takes the outcome of reading one item (`None` where the read or the
    /// parse failed) and gives the element to hand on, if any.
    pub fn on_parsed(&mut self, parsed: Option<ArrayItem>) -> (r: Option<JsonValue>)
        ensures
            final(self).source() == old(self).source(),
            final(self).is_finished() == finished_after(
                old(self).is_finished(),
                parsed_model(parsed),
            ),
            option_model(r) == element_of(parsed_model(parsed)),
    {
        match parsed {
            Some(ArrayItem::Item(v)) => Some(v),
            Some(ArrayItem::LastItem(v)) => {
                self.seen_last = true;
                Some(v)
            },
            Some(ArrayItem::End) => None,
            None => None,
        }
    }
}

/// A finished iterator stays finished, whatever a later step reads.
pub proof fn lemma_finished_stays_finished(parsed: Option<ArrayItemModel>)
    ensures
        finished_after(true, parsed),
{
}

/// How a stream starts: with a single value, or with the elements of an
/// array still to be read from the reader.
pub enum Stream<R> {
    Single(JsonValue),
    Items(JsonIterator<R>),
}

/// Starts a stream from what [`root`] read at the start of `reader`.
pub fn start_stream<R>(reader: R, first: IterValue) -> (r: Stream<R>)
    ensures
        match first {
            IterValue::JsonVal(v) => r == Stream::<R>::Single(v),
            IterValue::ArrayBegin => r matches Stream::Items(it) && it.source() == reader
                && !it.is_finished(),
        },
{
    match first {
        IterValue::JsonVal(v) => Stream::Single(v),
        IterValue::ArrayBegin => Stream::Items(JsonIterator::new(reader)),
    }
}

/// The elements that a run of [`array_item`] steps over `s` hands on, when
/// the run ends at the closing bracket; `None` when a step fails.
pub open spec fn spec_stream_items(s: Seq<u8>) -> Option<Seq<Json>>
    decreases s.len(),
{
    match spec_array_item(s) {
        Ok((n, ArrayItemModel::Item(v))) => if 0 < n <= s.len() {
            match spec_stream_items(s.skip(n as int)) {
                Some(rest) => Some(seq![v] + rest),
                None => None,
            }
        } else {
            None
        },
        Ok((_, ArrayItemModel::LastItem(v))) => Some(seq![v]),
        Ok((_, ArrayItemModel::End)) => Some(Seq::empty()),
        Err(_) => None,
    }
}

proof fn lemma_stream_from(u: Seq<u8>, e: nat, acc: Seq<Json>)
    requires
        e <= u.len(),
        spec_element(u.skip(e as int)) is Ok,
        spec_values_from(
            u,
            e + spec_element(u.skip(e as int))->Ok_0.0,
            acc.push(spec_element(u.skip(e as int))->Ok_0.1),
        ) is Ok,
        spec_ws_byte(
            u.skip(
                spec_values_from(
                    u,
                    e + spec_element(u.skip(e as int))->Ok_0.0,
                    acc.push(spec_element(u.skip(e as int))->Ok_0.1),
                )->Ok_0.0 as int,
            ),
            RBRACKET,
        ) is Ok,
    ensures
        spec_stream_items(u.skip(e as int)) == Some(
            spec_values_from(
                u,
                e + spec_element(u.skip(e as int))->Ok_0.0,
                acc.push(spec_element(u.skip(e as int))->Ok_0.1),
            )->Ok_0.1.skip(acc.len() as int),
        ),
    decreases u.len() - e,
{
    reveal(spec_element);
    reveal(spec_json_value);
    reveal(spec_values_from);
    let w = u.skip(e as int);
    let (ne, v) = spec_element(w)->Ok_0;
    let (p, vs) = spec_values_from(u, e + ne, acc.push(v))->Ok_0;
    lemma_element_bound(w);
    lemma_take_until_bound(w, Stop::NonSpace);
    let k = spec_sp_trn(w)->Ok_0.0;
    let t = w.skip(k as int);
    let n = spec_json_value(t)->Ok_0.0;
    assert(spec_json_value(t)->Ok_0.1 == v);
    assert(ne == k + n);
    lemma_skip_skip(u, e as int, ne as int);
    lemma_skip_skip(w, k as int, n as int);
    let pos = e + ne;
    assert(t.skip(n as int) == u.skip(pos as int));
    lemma_values_from_bound(u, pos, acc.push(v));
    assert(vs.take((acc.len() + 1) as int) == acc.push(v));
    assert(vs[acc.len() as int] == v) by {
        assert(vs.take((acc.len() + 1) as int)[acc.len() as int] == acc.push(v)[acc.len() as int]);
    }
    lemma_ws_byte_bound(u.skip(pos as int), COMMA);
    match spec_ws_byte(u.skip(pos as int), COMMA) {
        Ok((ns, _)) => {
            let e2 = pos + ns;
            lemma_element_bound(u.skip(e2 as int));
            match spec_element(u.skip(e2 as int)) {
                Ok((ne2, v2)) => {
                    assert(spec_values_from(u, pos, acc.push(v)) == spec_values_from(
                        u,
                        e2 + ne2,
                        acc.push(v).push(v2),
                    ));
                    lemma_stream_from(u, e2, acc.push(v));
                    assert(spec_array_item(w) == Ok::<(nat, ArrayItemModel), ParseError>(
                        (ne + ns, ArrayItemModel::Item(v)),
                    ));
                    lemma_skip_skip(u, e as int, (ne + ns) as int);
                    assert(vs.skip(acc.len() as int) =~= seq![v] + vs.skip((acc.len() + 1) as int));
                },
                Err(ParseError::Error) => {
                    lemma_ws_byte_exclusive(u.skip(pos as int), COMMA, RBRACKET);
                },
                Err(_) => {},
            }
        },
        Err(ParseError::Error) => {
            assert(vs == acc.push(v));
            assert(spec_array_item(w) == Ok::<(nat, ArrayItemModel), ParseError>(
                (
                    (ne + spec_ws_byte(u.skip(pos as int), RBRACKET)->Ok_0.0) as nat,
                    ArrayItemModel::LastItem(v),
                ),
            ));
            assert(vs.skip(acc.len() as int) =~= seq![v]);
        },
        Err(_) => {},
    }
}

/// Streaming an array gives exactly its elements: where [`array`] reads an
/// array at the start of `s`, [`root`] reads its opening bracket, and the
/// run of [`array_item`] steps over what follows hands on the array's
/// elements, in order, and ends at its closing bracket.
pub proof fn lemma_streamed_items_are_array_elements(s: Seq<u8>)
    ensures
        spec_array(s) matches Ok((_, vs)) ==> {
            &&& spec_root(s) == Ok::<(nat, IterValueModel), ParseError>(
                (1, IterValueModel::ArrayBegin),
            )
            &&& spec_stream_items(s.skip(1)) == Some(vs)
        },
{
    reveal(spec_array);
    reveal(spec_values);
    reveal(spec_values_from);
    reveal(spec_element);
    reveal(spec_json_value);
    lemma_tag_of_one_byte(s, LBRACKET);
    if let Ok((_, vs)) = spec_array(s) {
        let u = s.skip(1);
        let (n2, vs2) = spec_values(u)->Ok_0;
        assert(vs2 == vs);
        lemma_values_bound(u);
        lemma_skip_skip(s, 1, n2 as int);
        match spec_element(u) {
            Ok((n1, v)) => {
                assert(u.skip(0) =~= u);
                assert(Seq::<Json>::empty().push(v) =~= seq![v]);
                lemma_stream_from(u, 0, Seq::empty());
                assert(Seq::<Json>::empty().push(v) =~= seq![v]);
                assert(vs.skip(0) =~= vs);
            },
            _ => {
                assert(n2 == 0);
                assert(u.skip(0) =~= u);
                lemma_take_until_bound(u, Stop::NonSpace);
                let k = spec_sp_trn(u)->Ok_0.0;
                let t = u.skip(k as int);
                lemma_tag_of_one_byte(t, RBRACKET);
                assert(spec_array_item(u) == Ok::<(nat, ArrayItemModel), ParseError>(
                    ((k + 1) as nat, ArrayItemModel::End),
                ));
            },
        }
    }
}

} // verus!
