//! What the grammar reads from inputs of a given shape, stated over all
//! inputs of that shape.
use super::external::{float_extent, may_start_number};
use super::primitives::{
    is_first_stop, is_space, lemma_first_stop, lemma_skip_skip, lemma_take_until_bound, spec_tag,
    stops, Stop,
};
use super::streaming::{
    lemma_element_bound, lemma_key_prefix_bound, lemma_values_from_bound, lemma_key_value_bound, lemma_pairs_from_bound,
    lemma_sp_trn_takes_all_spaces, lemma_string_bound, lemma_ws_byte_bound, spec_array,
    spec_element, spec_json_value, spec_number, spec_sp_trn, spec_values, spec_values_from,
    spec_hash, spec_key_prefix, spec_key_value, spec_pairs, spec_pairs_from, spec_string,
    spec_ws_byte, lemma_string_reads_its_text, BACKSLASH, COLON, COMMA, LBRACE, LBRACKET, QUOTE,
    RBRACE, RBRACKET,
};
use super::{cut_error, ParseError, SpecResult};
use crate::json_value::{collect_spec, Json};
use vstd::prelude::*;
use vstd::utf8::{decode_utf8, valid_utf8};

verus! {

/// Where the input starts with a byte that is not a space, tab, carriage
/// return or line feed, there are no leading spaces to take.
pub proof fn lemma_sp_trn_at_non_space(s: Seq<u8>)
    requires
        s.len() > 0,
        !is_space(s[0]),
    ensures
        spec_sp_trn(s) == Ok::<(nat, Seq<u8>), ParseError>((0, Seq::empty())),
{
    assert(is_first_stop(s, Stop::NonSpace, 0));
    lemma_first_stop(s, Stop::NonSpace, 0);
    assert(s.take(0) =~= Seq::<u8>::empty());
}

/// The tag `t` matches at the start of `t + x`, whatever follows it.
pub proof fn lemma_tag_at_start(t: Seq<u8>, x: Seq<u8>)
    ensures
        spec_tag(t + x, t) == Ok::<(nat, Seq<u8>), ParseError>((t.len(), t)),
{
    reveal(spec_tag);
    assert forall|j: int| 0 <= j < (t + x).len() && j < t.len() implies (t + x)[j] == t[j] by {}
    assert((t + x).take(t.len() as int) =~= t);
}

/// A tag does not match where a byte of the input differs from it.
pub proof fn lemma_tag_mismatch(s: Seq<u8>, t: Seq<u8>, j: int)
    requires
        0 <= j < s.len(),
        j < t.len(),
        s[j] != t[j],
    ensures
        spec_tag(s, t) == Err::<(nat, Seq<u8>), ParseError>(ParseError::Error),
{
    reveal(spec_tag);
}

/// The literal `null` reads as the null value, whatever follows it.
pub proof fn lemma_null_literal(x: Seq<u8>)
    ensures
        spec_json_value(seq![0x6eu8, 0x75, 0x6c, 0x6c] + x) == Ok::<(nat, Json), ParseError>(
            (4, Json::Null),
        ),
{
    reveal(spec_json_value);
    let s = seq![0x6eu8, 0x75, 0x6c, 0x6c] + x;
    lemma_sp_trn_at_non_space(s);
    assert(s.skip(0) =~= s);
    lemma_tag_at_start(seq![0x6eu8, 0x75, 0x6c, 0x6c], x);
}

/// The literal `false` reads as the boolean false, whatever follows it.
pub proof fn lemma_false_literal(x: Seq<u8>)
    ensures
        spec_json_value(seq![0x66u8, 0x61, 0x6c, 0x73, 0x65] + x) == Ok::<(nat, Json), ParseError>(
            (5, Json::Bool(false)),
        ),
{
    reveal(spec_json_value);
    let f = seq![0x66u8, 0x61, 0x6c, 0x73, 0x65];
    let s = f + x;
    lemma_sp_trn_at_non_space(s);
    assert(s.skip(0) =~= s);
    lemma_tag_mismatch(s, seq![0x6eu8, 0x75, 0x6c, 0x6c], 0);
    lemma_tag_mismatch(s, seq![0x74u8, 0x72, 0x75, 0x65], 0);
    lemma_tag_at_start(f, x);
}

/// The literal `true` reads as the boolean true, whatever follows it.
pub proof fn lemma_true_literal(x: Seq<u8>)
    ensures
        spec_json_value(seq![0x74u8, 0x72, 0x75, 0x65] + x) == Ok::<(nat, Json), ParseError>(
            (4, Json::Bool(true)),
        ),
{
    reveal(spec_json_value);
    let tr = seq![0x74u8, 0x72, 0x75, 0x65];
    let s = tr + x;
    lemma_sp_trn_at_non_space(s);
    assert(s.skip(0) =~= s);
    lemma_tag_mismatch(s, seq![0x6eu8, 0x75, 0x6c, 0x6c], 0);
    lemma_tag_at_start(tr, x);
}

/// A number is exactly what nom's float recogniser recognises: wherever the
/// first byte can begin a number, the number text is the prefix whose length
/// the recogniser gives, and the recogniser's failure is the number's. No
/// byte that can begin a number is refused on its own.
pub proof fn lemma_number_is_what_the_recogniser_reads(s: Seq<u8>)
    requires
        s.len() > 0,
        may_start_number(s[0]),
    ensures
        spec_number(s) == match float_extent(s) {
            Ok(n) => if n <= s.len() {
                Ok::<(nat, Seq<u8>), ParseError>((n as nat, s.take(n as int)))
            } else {
                Err(ParseError::Error)
            },
            Err(e) => Err(e),
        },
{
}

/// A value that starts with a digit or a minus sign is a number: it is
/// read as the number text there, and fails as the number does.
pub proof fn lemma_value_starting_with_digit_is_number(s: Seq<u8>)
    requires
        s.len() > 0,
        (0x30 <= s[0] <= 0x39) || s[0] == 0x2d,
    ensures
        spec_json_value(s) == match spec_number(s) {
            Ok((n, d)) => Ok::<(nat, Json), ParseError>((n, Json::Num(d))),
            Err(e) => Err(e),
        },
{
    reveal(spec_json_value);
    reveal(spec_string);
    reveal(spec_array);
    reveal(spec_hash);
    lemma_sp_trn_at_non_space(s);
    assert(s.skip(0) =~= s);
    lemma_tag_mismatch(s, seq![0x6eu8, 0x75, 0x6c, 0x6c], 0);
    lemma_tag_mismatch(s, seq![0x74u8, 0x72, 0x75, 0x65], 0);
    lemma_tag_mismatch(s, seq![0x66u8, 0x61, 0x6c, 0x73, 0x65], 0);
}

/// The outcome `r` with `d` more bytes consumed.
pub open spec fn consumed_more<V>(r: SpecResult<V>, d: nat) -> SpecResult<V> {
    match r {
        Ok((n, v)) => Ok((n + d, v)),
        Err(e) => Err(e),
    }
}

/// Spaces, tabs, carriage returns and line feeds only.
pub open spec fn all_spaces(ws: Seq<u8>) -> bool {
    forall|j: int| 0 <= j < ws.len() ==> is_space(#[trigger] ws[j])
}

/// More leading spaces make the run of spaces that [`spec_sp_trn`] takes
/// longer by as much, and leave what follows it unchanged.
pub proof fn lemma_sp_trn_after_spaces(ws: Seq<u8>, x: Seq<u8>)
    requires
        all_spaces(ws),
    ensures
        spec_sp_trn(x) matches Ok((k, _)) ==> (spec_sp_trn(ws + x) matches Ok((k2, _)) && k2
            == ws.len() + k && (ws + x).skip(k2 as int) == x.skip(k as int)),
        spec_sp_trn(x) is Err ==> spec_sp_trn(ws + x) == spec_sp_trn(x),
{
    let s = ws + x;
    lemma_sp_trn_takes_all_spaces(x);
    lemma_sp_trn_takes_all_spaces(s);
    match spec_sp_trn(x) {
        Ok((k, _)) => {
            let p: int = (ws.len() + k) as int;
            assert(is_first_stop(s, Stop::NonSpace, p)) by {
                assert(s[p] == x[k as int]);
                assert forall|j: int| 0 <= j < p implies !stops(Stop::NonSpace, #[trigger] s[j]) by {
                    if j < ws.len() {
                        assert(s[j] == ws[j]);
                    } else {
                        assert(s[j] == x[j - ws.len()]);
                    }
                }
            }
            lemma_first_stop(s, Stop::NonSpace, p);
            assert(s.skip(p) =~= x.skip(k as int));
        },
        Err(_) => {
            assert forall|j: int| 0 <= j < s.len() implies is_space(#[trigger] s[j]) by {
                if j < ws.len() {
                    assert(s[j] == ws[j]);
                } else {
                    assert(s[j] == x[j - ws.len()]);
                }
            }
        },
    }
}

/// Spaces before an array element only add to what the element consumes.
pub proof fn lemma_element_after_spaces(ws: Seq<u8>, x: Seq<u8>)
    requires
        all_spaces(ws),
    ensures
        spec_element(ws + x) == consumed_more(spec_element(x), ws.len()),
{
    reveal(spec_element);
    lemma_sp_trn_after_spaces(ws, x);
}

/// Spaces before spaces and a byte only add to what is consumed.
pub proof fn lemma_ws_byte_after_spaces(ws: Seq<u8>, x: Seq<u8>, c: u8)
    requires
        all_spaces(ws),
    ensures
        spec_ws_byte(ws + x, c) == consumed_more(spec_ws_byte(x, c), ws.len()),
{
    lemma_sp_trn_after_spaces(ws, x);
}

/// The elements after the first depend only on the input from `pos` on.
proof fn lemma_values_from_same_rest(u1: Seq<u8>, p1: nat, u2: Seq<u8>, p2: nat, acc: Seq<Json>)
    requires
        p2 <= p1,
        p1 <= u1.len(),
        p2 <= u2.len(),
        u1.skip(p1 as int) == u2.skip(p2 as int),
    ensures
        spec_values_from(u1, p1, acc) == consumed_more(
            spec_values_from(u2, p2, acc),
            (p1 - p2) as nat,
        ),
    decreases u2.len() - p2,
{
    reveal(spec_values_from);
    reveal(spec_element);
    let r1 = u1.skip(p1 as int);
    lemma_ws_byte_bound(r1, COMMA);
    assert(u1.len() - p1 == u2.len() - p2);
    match spec_ws_byte(r1, COMMA) {
        Ok((ns, _)) => {
            if ns > 0 {
                lemma_skip_skip(u1, p1 as int, ns as int);
                lemma_skip_skip(u2, p2 as int, ns as int);
                let w = u2.skip((p2 + ns) as int);
                assert(u1.skip((p1 + ns) as int) == w);
                lemma_element_bound(w);
                match spec_element(w) {
                    Ok((ne, v)) => {
                        lemma_skip_skip(u1, (p1 + ns) as int, ne as int);
                        lemma_skip_skip(u2, (p2 + ns) as int, ne as int);
                        lemma_values_from_same_rest(
                            u1,
                            p1 + ns + ne,
                            u2,
                            p2 + ns + ne,
                            acc.push(v),
                        );
                        assert(spec_values_from(u1, p1, acc) == spec_values_from(
                            u1,
                            p1 + ns + ne,
                            acc.push(v),
                        ));
                        assert(spec_values_from(u2, p2, acc) == spec_values_from(
                            u2,
                            p2 + ns + ne,
                            acc.push(v),
                        ));
                    },
                    _ => {},
                }
            }
        },
        _ => {},
    }
}

/// An array after its opening bracket, in terms of its elements and the
/// closing bracket.
proof fn lemma_array_after_bracket(s: Seq<u8>)
    requires
        s.len() > 0,
        s[0] == LBRACKET,
    ensures
        spec_array(s) == match spec_values(s.skip(1)) {
            Err(e) => Err(cut_error(e)),
            Ok((n2, vs)) => match spec_ws_byte(s.skip((1 + n2) as int), RBRACKET) {
                Err(e) => Err(cut_error(e)),
                Ok((n3, _)) => Ok::<(nat, Seq<Json>), ParseError>((1 + n2 + n3, vs)),
            },
        },
{
    reveal(spec_array);
    reveal(spec_values);
    reveal(spec_values_from);
    reveal(spec_element);
}

/// Spaces before the elements of an array only add to what they consume,
/// unless no element is there at all.
proof fn lemma_values_after_spaces(ws: Seq<u8>, x: Seq<u8>)
    requires
        all_spaces(ws),
    ensures
        spec_element(x) is Err && spec_element(x) != Err::<(nat, Json), ParseError>(
            ParseError::Error,
        ) ==> spec_values(ws + x) == spec_values(x) && spec_values(x) is Err,
        spec_element(x) == Err::<(nat, Json), ParseError>(ParseError::Error) ==> (spec_values(
            ws + x,
        ) == spec_values(x) && spec_values(x) == Ok::<(nat, Seq<Json>), ParseError>(
            (0, Seq::empty()),
        )),
        spec_element(x) is Ok ==> spec_values(ws + x) == consumed_more(spec_values(x), ws.len()),
        spec_element(x) is Ok ==> (spec_values(x) matches Ok((n2, _)) ==> n2 <= x.len()),
{
    reveal(spec_values);
    reveal(spec_values_from);
    reveal(spec_element);
    let u1 = ws + x;
    lemma_element_after_spaces(ws, x);
    lemma_element_bound(x);
    if let Ok((n1, v)) = spec_element(x) {
        assert(u1.skip((ws.len() + n1) as int) =~= x.skip(n1 as int));
        lemma_values_from_same_rest(u1, ws.len() + n1, x, n1, seq![v]);
        lemma_values_from_bound(x, n1, seq![v]);
        assert(spec_values(u1) == spec_values_from(u1, ws.len() + n1, seq![v]));
        assert(spec_values(x) == spec_values_from(x, n1, seq![v]));
    }
}

/// Spaces after the opening bracket do not change an array: it has the same
/// elements, or fails the same way, and consumes the spaces as well.
pub proof fn lemma_array_spaces_after_bracket(ws: Seq<u8>, x: Seq<u8>)
    requires
        all_spaces(ws),
    ensures
        spec_array(seq![LBRACKET] + ws + x) == consumed_more(
            spec_array(seq![LBRACKET] + x),
            ws.len(),
        ),
{
    let s1 = seq![LBRACKET] + ws + x;
    let s2 = seq![LBRACKET] + x;
    assert(s1.skip(1) =~= ws + x);
    assert(s2.skip(1) =~= x);
    assert(s1[0] == LBRACKET);
    assert(s2[0] == LBRACKET);
    lemma_array_after_bracket(s1);
    lemma_array_after_bracket(s2);
    lemma_values_after_spaces(ws, x);
    let u1 = s1.skip(1);
    let u2 = s2.skip(1);
    assert(u1 == ws + x);
    assert(u2 == x);
    if spec_element(x) is Ok {
        assert(spec_values(u1) == consumed_more(spec_values(u2), ws.len()));
        if let Ok((n2, vs)) = spec_values(x) {
            assert(s1.skip((1 + ws.len() + n2) as int) =~= s2.skip((1 + n2) as int));
            assert(spec_ws_byte(s1.skip((1 + (ws.len() + n2)) as int), RBRACKET) == spec_ws_byte(
                s2.skip((1 + n2) as int),
                RBRACKET,
            ));
        }
    } else if spec_element(x) == Err::<(nat, Json), ParseError>(ParseError::Error) {
        assert(spec_values(u1) == Ok::<(nat, Seq<Json>), ParseError>((0, Seq::empty())));
        assert(s1.skip((1 + 0nat) as int) == ws + x);
        assert(s2.skip((1 + 0nat) as int) == x);
        lemma_ws_byte_after_spaces(ws, x, RBRACKET);
    } else {
        assert(spec_values(u1) == spec_values(u2));
    }
}

/// Items written one after another: each item `es[i]` is followed by the
/// spaces `ws[i]`, and a comma stands between each two.
pub open spec fn comma_joined(es: Seq<Seq<u8>>, ws: Seq<Seq<u8>>) -> Seq<u8>
    decreases es.len(),
{
    if es.len() == 0 {
        Seq::empty()
    } else if es.len() == 1 {
        es[0] + ws[0]
    } else {
        es[0] + ws[0] + seq![COMMA] + comma_joined(es.drop_first(), ws.drop_first())
    }
}

/// Each of `ws` is made of spaces only, and there is one for each item.
pub open spec fn spacings(es: Seq<Seq<u8>>, ws: Seq<Seq<u8>>) -> bool {
    &&& ws.len() == es.len()
    &&& forall|i: int| 0 <= i < ws.len() ==> #[trigger] all_spaces(ws[i])
}

/// A byte that can end an item of a list closed by `close`.
pub open spec fn ends_item(b: u8, close: u8) -> bool {
    b == COMMA || b == close || is_space(b)
}

/// `e` is read as the whole object entry `kv` wherever a space, a comma or
/// a closing brace follows it.
pub open spec fn reads_as_entry(e: Seq<u8>, kv: (Seq<char>, Json)) -> bool {
    forall|t: Seq<u8>|
        t.len() > 0 && ends_item(t[0], RBRACE) ==> #[trigger] spec_key_value(e + t) == Ok::<
            (nat, (Seq<char>, Json)),
            ParseError,
        >((e.len(), kv))
}

/// `e` is read as the whole array element `v` wherever a space, a comma or a
/// closing bracket follows it.
pub open spec fn reads_as_element(e: Seq<u8>, v: Json) -> bool {
    forall|t: Seq<u8>|
        t.len() > 0 && ends_item(t[0], RBRACKET) ==> #[trigger] spec_element(e + t) == Ok::<
            (nat, Json),
            ParseError,
        >((e.len(), v))
}

/// What follows the spaces after an item: the closing byte, or a comma and
/// more items.
pub open spec fn after_item(es: Seq<Seq<u8>>, ws: Seq<Seq<u8>>, close: u8, rest: Seq<u8>) -> Seq<
    u8,
> {
    if es.len() == 0 {
        seq![close] + rest
    } else {
        seq![COMMA] + comma_joined(es, ws) + seq![close] + rest
    }
}

proof fn lemma_joined_split(es: Seq<Seq<u8>>, ws: Seq<Seq<u8>>, close: u8, rest: Seq<u8>)
    requires
        es.len() > 0,
        ws.len() == es.len(),
    ensures
        comma_joined(es, ws) + seq![close] + rest == es[0] + (ws[0] + after_item(
            es.drop_first(),
            ws.drop_first(),
            close,
            rest,
        )),
        comma_joined(es, ws).len() == es[0].len() + ws[0].len() + (if es.len() == 1 {
            0
        } else {
            1 + comma_joined(es.drop_first(), ws.drop_first()).len()
        }),
{
    if es.len() == 1 {
        assert(comma_joined(es, ws) + seq![close] + rest =~= es[0] + (ws[0] + (seq![close]
            + rest)));
    } else {
        assert(comma_joined(es, ws) + seq![close] + rest =~= es[0] + (ws[0] + (seq![COMMA]
            + comma_joined(es.drop_first(), ws.drop_first()) + seq![close] + rest)));
    }
}

/// Spaces, then a comma or the closing byte.
proof fn lemma_ws_after_item(sp: Seq<u8>, x: Seq<u8>, close: u8)
    requires
        all_spaces(sp),
        x.len() > 0,
        x[0] == COMMA || x[0] == close,
        close != COMMA,
        !is_space(close),
    ensures
        x[0] == COMMA ==> spec_ws_byte(sp + x, COMMA) == Ok::<(nat, u8), ParseError>(
            (sp.len() + 1, COMMA),
        ),
        x[0] == close ==> spec_ws_byte(sp + x, COMMA) == Err::<(nat, u8), ParseError>(
            ParseError::Error,
        ),
        x[0] == close ==> spec_ws_byte(sp + x, close) == Ok::<(nat, u8), ParseError>(
            (sp.len() + 1, close),
        ),
{
    lemma_sp_trn_at_non_space(x);
    assert(x.skip(0) =~= x);
    lemma_ws_byte_after_spaces(sp, x, COMMA);
    lemma_ws_byte_after_spaces(sp, x, close);
}

/// The spacings of all items but the first.
proof fn lemma_spacings_tail(es: Seq<Seq<u8>>, ws: Seq<Seq<u8>>)
    requires
        es.len() > 0,
        spacings(es, ws),
    ensures
        spacings(es.drop_first(), ws.drop_first()),
        all_spaces(ws[0]),
{
    assert(all_spaces(ws[0]));
    assert forall|i: int| 0 <= i < ws.drop_first().len() implies #[trigger] all_spaces(
        ws.drop_first()[i],
    ) by {
        assert(all_spaces(ws[i + 1]));
    }
}

/// The entries after a comma, each read as itself, up to the closing brace.
proof fn lemma_pairs_from_joined(
    u: Seq<u8>,
    pos: nat,
    acc: Seq<(Seq<char>, Json)>,
    sp: Seq<u8>,
    es: Seq<Seq<u8>>,
    ws: Seq<Seq<u8>>,
    kvs: Seq<(Seq<char>, Json)>,
    rest: Seq<u8>,
)
    requires
        es.len() == kvs.len(),
        spacings(es, ws),
        all_spaces(sp),
        forall|i: int| 0 <= i < es.len() ==> #[trigger] reads_as_entry(es[i], kvs[i]),
        pos <= u.len(),
        u.skip(pos as int) == sp + after_item(es, ws, RBRACE, rest),
    ensures
        spec_pairs_from(u, pos, acc) == Ok::<(nat, Seq<(Seq<char>, Json)>), ParseError>(
            (
                pos + (if es.len() == 0 {
                    0
                } else {
                    (sp.len() + 1 + comma_joined(es, ws).len() - ws.last().len()) as nat
                }),
                acc + kvs,
            ),
        ),
    decreases es.len(),
{
    reveal(spec_pairs_from);
    reveal(spec_key_value);
    let x = after_item(es, ws, RBRACE, rest);
    lemma_ws_after_item(sp, x, RBRACE);
    if es.len() == 0 {
        assert(spec_ws_byte(u.skip(pos as int), COMMA) == Err::<(nat, u8), ParseError>(
            ParseError::Error,
        ));
        assert(spec_pairs_from(u, pos, acc) == Ok::<(nat, Seq<(Seq<char>, Json)>), ParseError>(
            (pos, acc),
        ));
        assert(acc + kvs =~= acc);
    } else {
        assert(spec_ws_byte(u.skip(pos as int), COMMA) == Ok::<(nat, u8), ParseError>(
            (sp.len() + 1, COMMA),
        ));
        let ns = sp.len() + 1;
        lemma_skip_skip(u, pos as int, ns as int);
        let y = u.skip((pos + ns) as int);
        assert(y =~= comma_joined(es, ws) + seq![RBRACE] + rest);
        lemma_joined_split(es, ws, RBRACE, rest);
        lemma_spacings_tail(es, ws);
        let t = ws[0] + after_item(es.drop_first(), ws.drop_first(), RBRACE, rest);
        assert(reads_as_entry(es[0], kvs[0]));
        assert(ends_item(t[0], RBRACE)) by {
            if ws[0].len() > 0 {
                assert(t[0] == ws[0][0]);
            }
        }
        assert(spec_key_value(es[0] + t) == Ok::<(nat, (Seq<char>, Json)), ParseError>(
            (es[0].len(), kvs[0]),
        ));
        let p2 = pos + ns + es[0].len();
        lemma_skip_skip(u, (pos + ns) as int, es[0].len() as int);
        assert(y.skip(es[0].len() as int) =~= t);
        assert forall|i: int| 0 <= i < es.drop_first().len() implies #[trigger] reads_as_entry(
            es.drop_first()[i],
            kvs.drop_first()[i],
        ) by {
            assert(reads_as_entry(es[i + 1], kvs[i + 1]));
        }
        lemma_pairs_from_joined(
            u,
            p2,
            acc.push(kvs[0]),
            ws[0],
            es.drop_first(),
            ws.drop_first(),
            kvs.drop_first(),
            rest,
        );
        lemma_joined_last(es, ws);
        if es.len() > 1 {
            lemma_joined_last(es.drop_first(), ws.drop_first());
        }
        assert(spec_pairs_from(u, pos, acc) == spec_pairs_from(u, p2, acc.push(kvs[0])));
        assert(acc.push(kvs[0]) + kvs.drop_first() =~= acc + kvs);
    }
}

/// No entry starts at a closing brace.
proof fn lemma_no_entry_at_brace(u: Seq<u8>)
    requires
        u.len() > 0,
        u[0] == RBRACE,
    ensures
        spec_pairs(u) == Ok::<(nat, Seq<(Seq<char>, Json)>), ParseError>((0, Seq::empty())),
{
    reveal(spec_pairs);
    reveal(spec_key_value);
    reveal(spec_string);
    lemma_sp_trn_at_non_space(u);
    assert(u.skip(0) =~= u);
    assert(spec_key_prefix(u) == Err::<(nat, Seq<char>), ParseError>(ParseError::Error));
}

/// The first of the entries written out, and what follows it.
proof fn lemma_first_entry(
    es: Seq<Seq<u8>>,
    ws: Seq<Seq<u8>>,
    kvs: Seq<(Seq<char>, Json)>,
    rest: Seq<u8>,
)
    requires
        es.len() == kvs.len(),
        es.len() > 0,
        spacings(es, ws),
        forall|i: int| 0 <= i < es.len() ==> #[trigger] reads_as_entry(es[i], kvs[i]),
    ensures
        spec_key_value(comma_joined(es, ws) + seq![RBRACE] + rest) == Ok::<
            (nat, (Seq<char>, Json)),
            ParseError,
        >((es[0].len(), kvs[0])),
        (comma_joined(es, ws) + seq![RBRACE] + rest).skip(es[0].len() as int) == ws[0]
            + after_item(es.drop_first(), ws.drop_first(), RBRACE, rest),
        es[0].len() <= (comma_joined(es, ws) + seq![RBRACE] + rest).len(),
        spacings(es.drop_first(), ws.drop_first()),
        all_spaces(ws[0]),
        forall|i: int|
            0 <= i < es.drop_first().len() ==> #[trigger] reads_as_entry(
                es.drop_first()[i],
                kvs.drop_first()[i],
            ),
{
    let u = comma_joined(es, ws) + seq![RBRACE] + rest;
    lemma_joined_split(es, ws, RBRACE, rest);
    lemma_spacings_tail(es, ws);
    let t = ws[0] + after_item(es.drop_first(), ws.drop_first(), RBRACE, rest);
    assert(reads_as_entry(es[0], kvs[0]));
    assert(ends_item(t[0], RBRACE)) by {
        if ws[0].len() > 0 {
            assert(t[0] == ws[0][0]);
        }
    }
    assert(u.skip(es[0].len() as int) =~= t);
    assert forall|i: int| 0 <= i < es.drop_first().len() implies #[trigger] reads_as_entry(
        es.drop_first()[i],
        kvs.drop_first()[i],
    ) by {
        assert(reads_as_entry(es[i + 1], kvs[i + 1]));
    }
}

/// The entries of an object written out one after another read as
/// themselves, in order.
proof fn lemma_joined_entries(
    es: Seq<Seq<u8>>,
    ws: Seq<Seq<u8>>,
    kvs: Seq<(Seq<char>, Json)>,
    rest: Seq<u8>,
)
    requires
        es.len() == kvs.len(),
        spacings(es, ws),
        forall|i: int| 0 <= i < es.len() ==> #[trigger] reads_as_entry(es[i], kvs[i]),
    ensures
        spec_pairs(comma_joined(es, ws) + seq![RBRACE] + rest) == Ok::<
            (nat, Seq<(Seq<char>, Json)>),
            ParseError,
        >(
            (
                if es.len() == 0 {
                    0
                } else {
                    (comma_joined(es, ws).len() - ws.last().len()) as nat
                },
                kvs,
            ),
        ),
{
    let u = comma_joined(es, ws) + seq![RBRACE] + rest;
    if es.len() == 0 {
        assert(u =~= seq![RBRACE] + rest);
        lemma_no_entry_at_brace(u);
        assert(kvs =~= Seq::<(Seq<char>, Json)>::empty());
    } else {
        reveal(spec_pairs);
        reveal(spec_key_value);
        reveal(spec_pairs_from);
        lemma_first_entry(es, ws, kvs, rest);
        lemma_pairs_from_joined(
            u,
            es[0].len(),
            seq![kvs[0]],
            ws[0],
            es.drop_first(),
            ws.drop_first(),
            kvs.drop_first(),
            rest,
        );
        lemma_joined_last(es, ws);
        if es.len() > 1 {
            lemma_joined_last(es.drop_first(), ws.drop_first());
        }
        assert(seq![kvs[0]] + kvs.drop_first() =~= kvs);
        assert(spec_pairs(u) == spec_pairs_from(u, es[0].len(), seq![kvs[0]]));
    }
}

/// The length of items written out, counted without the spaces after the
/// last one.
proof fn lemma_joined_last(es: Seq<Seq<u8>>, ws: Seq<Seq<u8>>)
    requires
        es.len() > 0,
        ws.len() == es.len(),
    ensures
        comma_joined(es, ws).len() >= ws.last().len(),
        (comma_joined(es, ws).len() - ws.last().len()) == es[0].len() + (if es.len() == 1 {
            0
        } else {
            ws[0].len() + 1 + comma_joined(es.drop_first(), ws.drop_first()).len()
                - ws.drop_first().last().len()
        }),
    decreases es.len(),
{
    if es.len() > 1 {
        lemma_joined_last(es.drop_first(), ws.drop_first());
        assert(ws.drop_first().last() == ws.last());
    }
}

/// Spaces around the commas of an object are optional, and spaces after
/// its entries are skipped: an object written as `{`, then entries each
/// followed by any spaces and separated by commas, then `}`, reads as its
/// entries in order, one per key with the last value given for a key
/// winning, whatever follows the closing brace.
pub proof fn lemma_object_of_entries(
    es: Seq<Seq<u8>>,
    ws: Seq<Seq<u8>>,
    kvs: Seq<(Seq<char>, Json)>,
    rest: Seq<u8>,
)
    requires
        es.len() == kvs.len(),
        spacings(es, ws),
        forall|i: int| 0 <= i < es.len() ==> #[trigger] reads_as_entry(es[i], kvs[i]),
    ensures
        spec_hash(seq![LBRACE] + comma_joined(es, ws) + seq![RBRACE] + rest) == Ok::<
            (nat, Seq<(Seq<char>, Json)>),
            ParseError,
        >(((comma_joined(es, ws).len() + 2) as nat, collect_spec(kvs))),
{
    let s = seq![LBRACE] + comma_joined(es, ws) + seq![RBRACE] + rest;
    assert(s[0] == LBRACE);
    assert(s.skip(1) =~= comma_joined(es, ws) + seq![RBRACE] + rest);
    lemma_hash_after_brace(s);
    lemma_joined_entries(es, ws, kvs, rest);
    let n2: nat = if es.len() == 0 {
        0
    } else {
        (comma_joined(es, ws).len() - ws.last().len()) as nat
    };
    let sp = if es.len() == 0 {
        Seq::<u8>::empty()
    } else {
        ws.last()
    };
    if es.len() > 0 {
        lemma_joined_last(es, ws);
        assert(all_spaces(ws[es.len() - 1]));
        assert(comma_joined(es, ws) =~= comma_joined(es, ws).take(n2 as int) + ws.last()) by {
            lemma_joined_ends_with_last(es, ws);
        }
    } else {
        assert(comma_joined(es, ws) =~= Seq::<u8>::empty());
    }
    assert(s.skip((1 + n2) as int) =~= sp + (seq![RBRACE] + rest));
    lemma_ws_after_item(sp, seq![RBRACE] + rest, RBRACE);
}

/// Items written out end with the spaces after the last one.
proof fn lemma_joined_ends_with_last(es: Seq<Seq<u8>>, ws: Seq<Seq<u8>>)
    requires
        es.len() > 0,
        ws.len() == es.len(),
    ensures
        comma_joined(es, ws).len() >= ws.last().len(),
        comma_joined(es, ws).skip(comma_joined(es, ws).len() - ws.last().len()) == ws.last(),
    decreases es.len(),
{
    if es.len() == 1 {
        assert((es[0] + ws[0]).skip(es[0].len() as int) =~= ws[0]);
    } else {
        lemma_joined_ends_with_last(es.drop_first(), ws.drop_first());
        assert(ws.drop_first().last() == ws.last());
        let a = es[0] + ws[0] + seq![COMMA];
        let b = comma_joined(es.drop_first(), ws.drop_first());
        assert(comma_joined(es, ws) == a + b);
        assert((a + b).skip(a.len() + b.len() - ws.last().len()) =~= b.skip(
            b.len() - ws.last().len(),
        ));
    }
}

/// The elements after a comma, each read as itself, up to the closing
/// bracket.
proof fn lemma_values_from_joined(
    u: Seq<u8>,
    pos: nat,
    acc: Seq<Json>,
    sp: Seq<u8>,
    es: Seq<Seq<u8>>,
    ws: Seq<Seq<u8>>,
    vs: Seq<Json>,
    rest: Seq<u8>,
)
    requires
        es.len() == vs.len(),
        spacings(es, ws),
        all_spaces(sp),
        forall|i: int| 0 <= i < es.len() ==> #[trigger] reads_as_element(es[i], vs[i]),
        pos <= u.len(),
        u.skip(pos as int) == sp + after_item(es, ws, RBRACKET, rest),
    ensures
        spec_values_from(u, pos, acc) == Ok::<(nat, Seq<Json>), ParseError>(
            (
                pos + (if es.len() == 0 {
                    0
                } else {
                    (sp.len() + 1 + comma_joined(es, ws).len() - ws.last().len()) as nat
                }),
                acc + vs,
            ),
        ),
    decreases es.len(),
{
    reveal(spec_values_from);
    reveal(spec_element);
    let x = after_item(es, ws, RBRACKET, rest);
    lemma_ws_after_item(sp, x, RBRACKET);
    if es.len() == 0 {
        assert(spec_ws_byte(u.skip(pos as int), COMMA) == Err::<(nat, u8), ParseError>(
            ParseError::Error,
        ));
        assert(spec_values_from(u, pos, acc) == Ok::<(nat, Seq<Json>), ParseError>(
            (pos, acc),
        ));
        assert(acc + vs =~= acc);
    } else {
        assert(spec_ws_byte(u.skip(pos as int), COMMA) == Ok::<(nat, u8), ParseError>(
            (sp.len() + 1, COMMA),
        ));
        let ns = sp.len() + 1;
        lemma_skip_skip(u, pos as int, ns as int);
        let y = u.skip((pos + ns) as int);
        assert(y =~= comma_joined(es, ws) + seq![RBRACKET] + rest);
        lemma_joined_split(es, ws, RBRACKET, rest);
        lemma_spacings_tail(es, ws);
        let t = ws[0] + after_item(es.drop_first(), ws.drop_first(), RBRACKET, rest);
        assert(reads_as_element(es[0], vs[0]));
        assert(ends_item(t[0], RBRACKET)) by {
            if ws[0].len() > 0 {
                assert(t[0] == ws[0][0]);
            }
        }
        assert(spec_element(es[0] + t) == Ok::<(nat, Json), ParseError>(
            (es[0].len(), vs[0]),
        ));
        let p2 = pos + ns + es[0].len();
        lemma_skip_skip(u, (pos + ns) as int, es[0].len() as int);
        assert(y.skip(es[0].len() as int) =~= t);
        assert forall|i: int| 0 <= i < es.drop_first().len() implies #[trigger] reads_as_element(
            es.drop_first()[i],
            vs.drop_first()[i],
        ) by {
            assert(reads_as_element(es[i + 1], vs[i + 1]));
        }
        lemma_values_from_joined(
            u,
            p2,
            acc.push(vs[0]),
            ws[0],
            es.drop_first(),
            ws.drop_first(),
            vs.drop_first(),
            rest,
        );
        lemma_joined_last(es, ws);
        if es.len() > 1 {
            lemma_joined_last(es.drop_first(), ws.drop_first());
        }
        assert(spec_values_from(u, pos, acc) == spec_values_from(u, p2, acc.push(vs[0])));
        assert(acc.push(vs[0]) + vs.drop_first() =~= acc + vs);
    }
}

/// The first of the elements written out, and what follows it.
proof fn lemma_first_element(
    es: Seq<Seq<u8>>,
    ws: Seq<Seq<u8>>,
    vs: Seq<Json>,
    rest: Seq<u8>,
)
    requires
        es.len() == vs.len(),
        es.len() > 0,
        spacings(es, ws),
        forall|i: int| 0 <= i < es.len() ==> #[trigger] reads_as_element(es[i], vs[i]),
    ensures
        spec_element(comma_joined(es, ws) + seq![RBRACKET] + rest) == Ok::<
            (nat, Json),
            ParseError,
        >((es[0].len(), vs[0])),
        (comma_joined(es, ws) + seq![RBRACKET] + rest).skip(es[0].len() as int) == ws[0]
            + after_item(es.drop_first(), ws.drop_first(), RBRACKET, rest),
        es[0].len() <= (comma_joined(es, ws) + seq![RBRACKET] + rest).len(),
        spacings(es.drop_first(), ws.drop_first()),
        all_spaces(ws[0]),
        forall|i: int|
            0 <= i < es.drop_first().len() ==> #[trigger] reads_as_element(
                es.drop_first()[i],
                vs.drop_first()[i],
            ),
{
    let u = comma_joined(es, ws) + seq![RBRACKET] + rest;
    lemma_joined_split(es, ws, RBRACKET, rest);
    lemma_spacings_tail(es, ws);
    let t = ws[0] + after_item(es.drop_first(), ws.drop_first(), RBRACKET, rest);
    assert(reads_as_element(es[0], vs[0]));
    assert(ends_item(t[0], RBRACKET)) by {
        if ws[0].len() > 0 {
            assert(t[0] == ws[0][0]);
        }
    }
    assert(u.skip(es[0].len() as int) =~= t);
    assert forall|i: int| 0 <= i < es.drop_first().len() implies #[trigger] reads_as_element(
        es.drop_first()[i],
        vs.drop_first()[i],
    ) by {
        assert(reads_as_element(es[i + 1], vs[i + 1]));
    }
}

/// The elements of an array written out one after another read as
/// themselves, in order.
proof fn lemma_joined_elements(
    es: Seq<Seq<u8>>,
    ws: Seq<Seq<u8>>,
    vs: Seq<Json>,
    rest: Seq<u8>,
)
    requires
        es.len() == vs.len(),
        spacings(es, ws),
        forall|i: int| 0 <= i < es.len() ==> #[trigger] reads_as_element(es[i], vs[i]),
    ensures
        spec_values(comma_joined(es, ws) + seq![RBRACKET] + rest) == Ok::<
            (nat, Seq<Json>),
            ParseError,
        >(
            (
                if es.len() == 0 {
                    0
                } else {
                    (comma_joined(es, ws).len() - ws.last().len()) as nat
                },
                vs,
            ),
        ),
{
    let u = comma_joined(es, ws) + seq![RBRACKET] + rest;
    if es.len() == 0 {
        assert(u =~= seq![RBRACKET] + rest);
        lemma_no_element_at_bracket(u);
        assert(vs =~= Seq::<Json>::empty());
    } else {
        reveal(spec_values);
        reveal(spec_element);
        reveal(spec_values_from);
        lemma_first_element(es, ws, vs, rest);
        lemma_values_from_joined(
            u,
            es[0].len(),
            seq![vs[0]],
            ws[0],
            es.drop_first(),
            ws.drop_first(),
            vs.drop_first(),
            rest,
        );
        lemma_joined_last(es, ws);
        if es.len() > 1 {
            lemma_joined_last(es.drop_first(), ws.drop_first());
        }
        assert(seq![vs[0]] + vs.drop_first() =~= vs);
        assert(spec_values(u) == spec_values_from(u, es[0].len(), seq![vs[0]]));
    }
}

/// No element starts at a closing bracket.
proof fn lemma_no_element_at_bracket(u: Seq<u8>)
    requires
        u.len() > 0,
        u[0] == RBRACKET,
    ensures
        spec_values(u) == Ok::<(nat, Seq<Json>), ParseError>((0, Seq::empty())),
{
    reveal(spec_values);
    reveal(spec_values_from);
    reveal(spec_element);
    reveal(spec_json_value);
    reveal(spec_string);
    reveal(spec_array);
    reveal(spec_hash);
    lemma_sp_trn_at_non_space(u);
    assert(u.skip(0) =~= u);
    lemma_tag_mismatch(u, seq![0x6eu8, 0x75, 0x6c, 0x6c], 0);
    lemma_tag_mismatch(u, seq![0x74u8, 0x72, 0x75, 0x65], 0);
    lemma_tag_mismatch(u, seq![0x66u8, 0x61, 0x6c, 0x73, 0x65], 0);
    assert(spec_json_value(u) == Err::<(nat, Json), ParseError>(ParseError::Error));
    assert(spec_element(u) == Err::<(nat, Json), ParseError>(ParseError::Error));
}

/// Spaces around the commas of an array are optional, and spaces after its
/// elements are skipped: an array written as `[`, then elements each
/// followed by any spaces and separated by commas, then `]`, reads as its
/// elements in order, whatever follows the closing bracket.
pub proof fn lemma_array_of_elements(
    es: Seq<Seq<u8>>,
    ws: Seq<Seq<u8>>,
    vs: Seq<Json>,
    rest: Seq<u8>,
)
    requires
        es.len() == vs.len(),
        spacings(es, ws),
        forall|i: int| 0 <= i < es.len() ==> #[trigger] reads_as_element(es[i], vs[i]),
    ensures
        spec_array(seq![LBRACKET] + comma_joined(es, ws) + seq![RBRACKET] + rest) == Ok::<
            (nat, Seq<Json>),
            ParseError,
        >(((comma_joined(es, ws).len() + 2) as nat, vs)),
{
    let s = seq![LBRACKET] + comma_joined(es, ws) + seq![RBRACKET] + rest;
    assert(s[0] == LBRACKET);
    assert(s.skip(1) =~= comma_joined(es, ws) + seq![RBRACKET] + rest);
    lemma_array_after_bracket(s);
    lemma_joined_elements(es, ws, vs, rest);
    let n2: nat = if es.len() == 0 {
        0
    } else {
        (comma_joined(es, ws).len() - ws.last().len()) as nat
    };
    let sp = if es.len() == 0 {
        Seq::<u8>::empty()
    } else {
        ws.last()
    };
    if es.len() > 0 {
        lemma_joined_last(es, ws);
        assert(all_spaces(ws[es.len() - 1]));
        assert(comma_joined(es, ws) =~= comma_joined(es, ws).take(n2 as int) + ws.last()) by {
            lemma_joined_ends_with_last(es, ws);
        }
    } else {
        assert(comma_joined(es, ws) =~= Seq::<u8>::empty());
    }
    assert(s.skip((1 + n2) as int) =~= sp + (seq![RBRACKET] + rest));
    lemma_ws_after_item(sp, seq![RBRACKET] + rest, RBRACKET);
}

/// Spaces before an object entry only add to what the entry consumes.
pub proof fn lemma_key_value_after_spaces(ws: Seq<u8>, x: Seq<u8>)
    requires
        all_spaces(ws),
    ensures
        spec_key_value(ws + x) == consumed_more(spec_key_value(x), ws.len()),
{
    reveal(spec_key_value);
    let w = ws + x;
    lemma_sp_trn_after_spaces(ws, x);
    lemma_key_prefix_bound(x);
    if let Ok((k1, _)) = spec_sp_trn(x) {
        let k2 = ws.len() + k1;
        lemma_take_until_bound(x, Stop::NonSpace);
        lemma_string_bound(x.skip(k1 as int));
        if let Ok((n2, _)) = spec_string(x.skip(k1 as int)) {
            lemma_skip_skip(w, k2 as int, n2 as int);
            lemma_skip_skip(x, k1 as int, n2 as int);
        }
        assert(spec_key_prefix(w) == consumed_more(spec_key_prefix(x), ws.len()));
        if let Ok((n, _)) = spec_key_prefix(x) {
            assert(w.skip((ws.len() + n) as int) =~= x.skip(n as int));
        }
    }
}

/// The entries after the first depend only on the input from `pos` on.
proof fn lemma_pairs_from_same_rest(
    u1: Seq<u8>,
    p1: nat,
    u2: Seq<u8>,
    p2: nat,
    acc: Seq<(Seq<char>, Json)>,
)
    requires
        p2 <= p1,
        p1 <= u1.len(),
        p2 <= u2.len(),
        u1.skip(p1 as int) == u2.skip(p2 as int),
    ensures
        spec_pairs_from(u1, p1, acc) == consumed_more(
            spec_pairs_from(u2, p2, acc),
            (p1 - p2) as nat,
        ),
    decreases u2.len() - p2,
{
    reveal(spec_pairs_from);
    reveal(spec_key_value);
    let r1 = u1.skip(p1 as int);
    lemma_ws_byte_bound(r1, COMMA);
    assert(u1.len() - p1 == u2.len() - p2);
    match spec_ws_byte(r1, COMMA) {
        Ok((ns, _)) => {
            if ns > 0 {
                lemma_skip_skip(u1, p1 as int, ns as int);
                lemma_skip_skip(u2, p2 as int, ns as int);
                let w = u2.skip((p2 + ns) as int);
                assert(u1.skip((p1 + ns) as int) == w);
                lemma_key_value_bound(w);
                match spec_key_value(w) {
                    Ok((ne, kv)) => {
                        lemma_skip_skip(u1, (p1 + ns) as int, ne as int);
                        lemma_skip_skip(u2, (p2 + ns) as int, ne as int);
                        lemma_pairs_from_same_rest(
                            u1,
                            p1 + ns + ne,
                            u2,
                            p2 + ns + ne,
                            acc.push(kv),
                        );
                        assert(spec_pairs_from(u1, p1, acc) == spec_pairs_from(
                            u1,
                            p1 + ns + ne,
                            acc.push(kv),
                        ));
                        assert(spec_pairs_from(u2, p2, acc) == spec_pairs_from(
                            u2,
                            p2 + ns + ne,
                            acc.push(kv),
                        ));
                    },
                    _ => {},
                }
            }
        },
        _ => {},
    }
}

/// Spaces before the entries of an object only add to what they consume,
/// unless no entry is there at all.
proof fn lemma_pairs_after_spaces(ws: Seq<u8>, x: Seq<u8>)
    requires
        all_spaces(ws),
    ensures
        spec_key_value(x) is Err && spec_key_value(x) != Err::<
            (nat, (Seq<char>, Json)),
            ParseError,
        >(ParseError::Error) ==> spec_pairs(ws + x) == spec_pairs(x) && spec_pairs(x) is Err,
        spec_key_value(x) == Err::<(nat, (Seq<char>, Json)), ParseError>(ParseError::Error) ==> (
        spec_pairs(ws + x) == spec_pairs(x) && spec_pairs(x) == Ok::<
            (nat, Seq<(Seq<char>, Json)>),
            ParseError,
        >((0, Seq::empty()))),
        spec_key_value(x) is Ok ==> spec_pairs(ws + x) == consumed_more(spec_pairs(x), ws.len()),
        spec_key_value(x) is Ok ==> (spec_pairs(x) matches Ok((n2, _)) ==> n2 <= x.len()),
{
    reveal(spec_pairs);
    reveal(spec_pairs_from);
    reveal(spec_key_value);
    let u1 = ws + x;
    lemma_key_value_after_spaces(ws, x);
    lemma_key_value_bound(x);
    if let Ok((n1, kv)) = spec_key_value(x) {
        assert(u1.skip((ws.len() + n1) as int) =~= x.skip(n1 as int));
        lemma_pairs_from_same_rest(u1, ws.len() + n1, x, n1, seq![kv]);
        lemma_pairs_from_bound(x, n1, seq![kv]);
        assert(spec_pairs(u1) == spec_pairs_from(u1, ws.len() + n1, seq![kv]));
        assert(spec_pairs(x) == spec_pairs_from(x, n1, seq![kv]));
    }
}

/// An object after its opening brace, in terms of its entries and the
/// closing brace.
proof fn lemma_hash_after_brace(s: Seq<u8>)
    requires
        s.len() > 0,
        s[0] == LBRACE,
    ensures
        spec_hash(s) == match spec_pairs(s.skip(1)) {
            Err(e) => Err(cut_error(e)),
            Ok((n2, raw)) => match spec_ws_byte(s.skip((1 + n2) as int), RBRACE) {
                Err(e) => Err(cut_error(e)),
                Ok((n3, _)) => Ok::<(nat, Seq<(Seq<char>, Json)>), ParseError>(
                    (1 + n2 + n3, collect_spec(raw)),
                ),
            },
        },
{
    reveal(spec_hash);
    reveal(spec_pairs);
    reveal(spec_pairs_from);
    reveal(spec_key_value);
}

/// Spaces after the opening brace do not change an object: it has the same
/// entries, or fails the same way, and consumes the spaces as well.
pub proof fn lemma_object_spaces_after_brace(ws: Seq<u8>, x: Seq<u8>)
    requires
        all_spaces(ws),
    ensures
        spec_hash(seq![LBRACE] + ws + x) == consumed_more(spec_hash(seq![LBRACE] + x), ws.len()),
{
    let s1 = seq![LBRACE] + ws + x;
    let s2 = seq![LBRACE] + x;
    assert(s1.skip(1) =~= ws + x);
    assert(s2.skip(1) =~= x);
    assert(s1[0] == LBRACE);
    assert(s2[0] == LBRACE);
    lemma_hash_after_brace(s1);
    lemma_hash_after_brace(s2);
    lemma_pairs_after_spaces(ws, x);
    let u1 = s1.skip(1);
    let u2 = s2.skip(1);
    assert(u1 == ws + x);
    assert(u2 == x);
    if spec_key_value(x) is Ok {
        assert(spec_pairs(u1) == consumed_more(spec_pairs(u2), ws.len()));
        if let Ok((n2, raw)) = spec_pairs(x) {
            assert(s1.skip((1 + ws.len() + n2) as int) =~= s2.skip((1 + n2) as int));
            assert(spec_ws_byte(s1.skip((1 + (ws.len() + n2)) as int), RBRACE) == spec_ws_byte(
                s2.skip((1 + n2) as int),
                RBRACE,
            ));
        }
    } else if spec_key_value(x) == Err::<(nat, (Seq<char>, Json)), ParseError>(
        ParseError::Error,
    ) {
        assert(spec_pairs(u1) == Ok::<(nat, Seq<(Seq<char>, Json)>), ParseError>(
            (0, Seq::empty()),
        ));
        assert(s1.skip((1 + 0nat) as int) == ws + x);
        assert(s2.skip((1 + 0nat) as int) == x);
        lemma_ws_byte_after_spaces(ws, x, RBRACE);
    } else {
        assert(spec_pairs(u1) == spec_pairs(u2));
    }
}

/// No spaces after any of `n` items.
pub open spec fn no_spaces(n: nat) -> Seq<Seq<u8>> {
    Seq::new(n, |i: int| Seq::<u8>::empty())
}

/// Whitespace after an object's commas is optional: an object written
/// compactly, `{` then entries separated by single commas then `}`, reads as
/// its entries in order, one per key with the last value given for a key
/// winning.
pub proof fn lemma_compact_object(es: Seq<Seq<u8>>, kvs: Seq<(Seq<char>, Json)>, rest: Seq<u8>)
    requires
        es.len() == kvs.len(),
        forall|i: int| 0 <= i < es.len() ==> #[trigger] reads_as_entry(es[i], kvs[i]),
    ensures
        spec_hash(seq![LBRACE] + comma_joined(es, no_spaces(es.len())) + seq![RBRACE] + rest)
            == Ok::<(nat, Seq<(Seq<char>, Json)>), ParseError>(
            ((comma_joined(es, no_spaces(es.len())).len() + 2) as nat, collect_spec(kvs)),
        ),
{
    let ws = no_spaces(es.len());
    assert forall|i: int| 0 <= i < ws.len() implies #[trigger] all_spaces(ws[i]) by {}
    lemma_object_of_entries(es, ws, kvs, rest);
}

/// Whitespace after an array's commas is optional: an array written
/// compactly, `[` then elements separated by single commas then `]`, reads
/// as its elements in order.
pub proof fn lemma_compact_array(es: Seq<Seq<u8>>, vs: Seq<Json>, rest: Seq<u8>)
    requires
        es.len() == vs.len(),
        forall|i: int| 0 <= i < es.len() ==> #[trigger] reads_as_element(es[i], vs[i]),
    ensures
        spec_array(seq![LBRACKET] + comma_joined(es, no_spaces(es.len())) + seq![RBRACKET] + rest)
            == Ok::<(nat, Seq<Json>), ParseError>(
            ((comma_joined(es, no_spaces(es.len())).len() + 2) as nat, vs),
        ),
{
    let ws = no_spaces(es.len());
    assert forall|i: int| 0 <= i < ws.len() implies #[trigger] all_spaces(ws[i]) by {}
    lemma_array_of_elements(es, ws, vs, rest);
}

/// An object entry is its key, then its value: spaces, a double-quoted key
/// whose text has no `"` or `\\`, spaces and `:` give that key, and the
/// entry's value is the array element that follows, or fails as it does.
pub proof fn lemma_entry_is_key_then_value(
    ws1: Seq<u8>,
    b: Seq<u8>,
    ws2: Seq<u8>,
    e: Seq<u8>,
)
    requires
        all_spaces(ws1),
        all_spaces(ws2),
        valid_utf8(b),
        forall|j: int| 0 <= j < b.len() ==> #[trigger] b[j] != QUOTE && b[j] != BACKSLASH,
    ensures
        spec_key_value(ws1 + (seq![QUOTE] + b + seq![QUOTE] + (ws2 + (seq![COLON] + e))))
            == match spec_element(e) {
            Ok((m, v)) => Ok::<(nat, (Seq<char>, Json)), ParseError>(
                (ws1.len() + b.len() + 2 + ws2.len() + 1 + m, (decode_utf8(b), v)),
            ),
            Err(err) => Err(err),
        },
{
    reveal(spec_key_value);
    let k = seq![QUOTE] + b + seq![QUOTE] + (ws2 + (seq![COLON] + e));
    let w = ws1 + k;
    assert(k[0] == QUOTE);
    lemma_sp_trn_at_non_space(k);
    lemma_sp_trn_after_spaces(ws1, k);
    assert(k.skip(0) =~= k);
    let k1 = ws1.len();
    assert(w.skip(k1 as int) == k);
    lemma_string_reads_its_text(b, ws2 + (seq![COLON] + e));
    let n2 = b.len() + 2;
    let c = seq![COLON] + e;
    assert(w.skip((k1 + n2) as int) =~= ws2 + c);
    assert(c[0] == COLON);
    lemma_sp_trn_at_non_space(c);
    assert(c.skip(0) =~= c);
    lemma_ws_byte_after_spaces(ws2, c, COLON);
    let n = k1 + n2 + ws2.len() + 1;
    assert(spec_key_prefix(w) == Ok::<(nat, Seq<char>), ParseError>((n, decode_utf8(b))));
    assert(w.skip(n as int) =~= e);
    reveal(spec_element);
    lemma_element_bound(e);
}

} // verus!
