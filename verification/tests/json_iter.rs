use json_streams::json_iter::{
    array_end, array_item, array_start, root, start_stream, ArrayItem, IterValue, JsonIterator,
    Stream,
};
use json_streams::parsers::streaming::array;
use json_streams::parsers::ParseError;
use json_streams::JsonValue;

#[test]
fn array_item_valids() {
    let cases: Vec<(&[u8], ArrayItem)> = vec![
        (b"]", ArrayItem::End),
        (b" ]", ArrayItem::End),
        (b"\n]", ArrayItem::End),
        (b"\t]", ArrayItem::End),
        (b"null]", ArrayItem::LastItem(JsonValue::Null)),
        (b" null\n]", ArrayItem::LastItem(JsonValue::Null)),
        (b"\nnull\t]", ArrayItem::LastItem(JsonValue::Null)),
        (b"\tnull ]", ArrayItem::LastItem(JsonValue::Null)),
        (b"null,", ArrayItem::Item(JsonValue::Null)),
        (b" null,", ArrayItem::Item(JsonValue::Null)),
        (b"null\n,", ArrayItem::Item(JsonValue::Null)),
        (b" null\n,", ArrayItem::Item(JsonValue::Null)),
        (b"\nnull\t,", ArrayItem::Item(JsonValue::Null)),
        (b"\tnull ,", ArrayItem::Item(JsonValue::Null)),
    ];
    for (input, expected) in cases {
        println!("input: {:?}", input);
        assert_eq!(array_item(input), Ok((&b""[..], expected)));
    }
}

#[test]
fn array_item_errors() {
    assert_eq!(array_item(b"null"), Err(ParseError::Incomplete));
    assert_eq!(array_item(b"null x"), Err(ParseError::Error));
    assert_eq!(array_item(b"x"), Err(ParseError::Error));
    assert_eq!(array_item(b"  "), Err(ParseError::Incomplete));
}

#[test]
fn brackets() {
    assert_eq!(array_start(b"[1]"), Ok((&b"1]"[..], ())));
    assert_eq!(array_start(b"1"), Err(ParseError::Error));
    assert_eq!(array_start(b""), Err(ParseError::Incomplete));
    assert_eq!(array_end(b"]x"), Ok((&b"x"[..], ())));
    assert_eq!(array_end(b"x"), Err(ParseError::Error));
}

#[test]
fn root_prefers_the_opening_bracket() {
    match root(b"[null]") {
        Ok((rest, IterValue::ArrayBegin)) => assert_eq!(rest, &b"null]"[..]),
        other => panic!("unexpected: {:?}", other),
    }
    match root(b" \"test\" ") {
        Ok((rest, IterValue::JsonVal(v))) => {
            assert_eq!(rest, &b" "[..]);
            assert_eq!(v, JsonValue::Str(String::from("test")));
        }
        other => panic!("unexpected: {:?}", other),
    }
    assert!(matches!(root(b"x"), Err(ParseError::Error)));
}

fn stream_items(mut input: &[u8]) -> Option<Vec<JsonValue>> {
    let mut out = Vec::new();
    loop {
        match array_item(input) {
            Ok((rest, ArrayItem::Item(v))) => {
                out.push(v);
                input = rest;
            }
            Ok((_, ArrayItem::LastItem(v))) => {
                out.push(v);
                return Some(out);
            }
            Ok((_, ArrayItem::End)) => return Some(out),
            Err(_) => return None,
        }
    }
}

#[test]
fn streaming_an_array_gives_its_elements() {
    for input in [
        &b"[\"test\", \"test\", \"test\", \"test\", \"test\"]"[..],
        &b"[ ]"[..],
        &b"[1, [2, 3], {\"a\": null} ]"[..],
    ] {
        let (_, elements) = array(input).unwrap();
        match root(input) {
            Ok((rest, IterValue::ArrayBegin)) => assert_eq!(stream_items(rest), Some(elements)),
            other => panic!("unexpected: {:?}", other),
        }
    }
}

#[test]
fn the_iterator_stops_after_the_last_element() {
    let mut it = JsonIterator::new(());
    assert!(it.wants_item());
    assert_eq!(it.on_parsed(Some(ArrayItem::Item(JsonValue::Null))), Some(JsonValue::Null));
    assert!(it.wants_item());
    assert_eq!(it.on_parsed(None), None);
    assert!(it.wants_item());
    assert_eq!(
        it.on_parsed(Some(ArrayItem::LastItem(JsonValue::Bool(true)))),
        Some(JsonValue::Bool(true))
    );
    assert!(!it.wants_item());
    let mut ended = JsonIterator::new(7u8);
    assert_eq!(ended.on_parsed(Some(ArrayItem::End)), None);
    assert!(ended.wants_item());
    *ended.reader_mut() = 9;
    assert_eq!(*ended.reader_mut(), 9);
}

#[test]
fn a_stream_starts_with_a_value_or_with_array_items() {
    match start_stream(1u8, IterValue::JsonVal(JsonValue::Null)) {
        Stream::Single(v) => assert_eq!(v, JsonValue::Null),
        Stream::Items(_) => panic!("expected a single value"),
    }
    match start_stream(5u8, IterValue::ArrayBegin) {
        Stream::Items(mut it) => {
            assert!(it.wants_item());
            assert_eq!(*it.reader_mut(), 5);
        }
        Stream::Single(_) => panic!("expected items"),
    }
}

#[test]
fn a_decided_step_does_not_change_with_more_input() {
    for (short, long) in [
        (&b"null,"[..], &b"null, true]"[..]),
        (&b" 12 ]"[..], &b" 12 ] trailing"[..]),
        (&b"]"[..], &b"]]"[..]),
    ] {
        let (rest_short, item_short) = array_item(short).unwrap();
        let (rest_long, item_long) = array_item(long).unwrap();
        assert_eq!(item_short, item_long);
        assert_eq!(short.len() - rest_short.len(), long.len() - rest_long.len());
    }
    assert_eq!(array_item(b"nul x"), Err(ParseError::Error));
    assert_eq!(array_item(b"nul x, null]"), Err(ParseError::Error));
    match (root(b"[ "), root(b"[ 1, 2]")) {
        (Ok((a, IterValue::ArrayBegin)), Ok((b, IterValue::ArrayBegin))) => {
            assert_eq!(a.len() + 5, b.len());
        }
        other => panic!("unexpected: {:?}", other),
    }
}
