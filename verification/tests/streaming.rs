use json_streams::json_value::{collect_entries, insert_entry};
use json_streams::parsers::streaming::{
    array, boolean, element, hash, json_value, key_value, null, number, number_from,
    parse_fragment, parse_literal, parse_str, parse_string, sp_trn, string, string_old,
    StringFragment,
};
use json_streams::parsers::ParseError;
use json_streams::JsonValue;

fn num(text: &str) -> JsonValue {
    JsonValue::Num(text.as_bytes().to_vec())
}

fn obj(entries: Vec<(&str, JsonValue)>) -> JsonValue {
    JsonValue::Object(entries.into_iter().map(|(k, v)| (String::from(k), v)).collect())
}

#[test]
fn lib_it_works() {
    assert_eq!(2 + 2, 4);
}

#[test]
fn streaming_it_works() {
    let result = 2 + 2;
    assert_eq!(result, 4);
}

#[test]
fn array_valids() {
    let cases: Vec<(&[u8], Vec<JsonValue>)> = vec![
        (b"[]", Vec::new()),
        (b"[null]", vec![JsonValue::Null]),
        (b"[null,\nnull\n]", vec![JsonValue::Null, JsonValue::Null]),
    ];
    for (input, expected) in cases {
        println!("input: '{:?}", input);
        assert_eq!(array(input), Ok((&b""[..], expected)));
    }
}

#[test]
fn valid_empty() {
    let inputs = [&b"[]"[..], &b"[  ]"[..]];
    let empty_vec: Vec<JsonValue> = vec![];
    let expected_result = Ok((&b""[..], empty_vec));
    for input in &inputs {
        println!("input: '{:?}'", input);
        assert_eq!(&array(input), &expected_result);
    }
}

#[test]
fn valid_null() {
    let inputs = [&b"[null]"[..], &b"[ null]"[..], &b"[null ]"[..], &b"[ null ]"[..]];
    let expected_result = Ok((&b""[..], vec![JsonValue::Null]));
    for input in &inputs {
        println!("input: '{:?}'", input);
        assert_eq!(&array(input), &expected_result);
    }
}

#[test]
fn valid_nulls() {
    let inputs = [
        &b"[null,null]"[..],
        &b"[null, null]"[..],
        &b"[null, null ]"[..],
        &b"[ null,null ]"[..],
        &b"[ null\t,\nnull ]"[..],
    ];
    let expected_result = Ok((&b""[..], vec![JsonValue::Null, JsonValue::Null]));
    for input in &inputs {
        println!("input: '{:?}'", input);
        assert_eq!(&array(input), &expected_result);
    }
}

#[test]
fn valid_arrays() {
    let expected_vec: Vec<JsonValue> =
        vec![JsonValue::Array(vec![JsonValue::Null]), JsonValue::Null];
    assert_eq!(array(&b"[[null],null]"[..]), Ok((&b""[..], expected_vec)));
}

#[test]
fn streaming_valid_empty() {
    let inputs = [&b"{}"[..], &b"{  }"[..], &b"{\n}"[..], &b"{\t}"[..]];
    let expected_result: Result<(&[u8], Vec<(String, JsonValue)>), ParseError> =
        Ok((&b""[..], Vec::new()));
    for input in &inputs {
        println!("input: '{:?}'", input);
        assert_eq!(&hash(input), &expected_result);
    }
}

#[test]
fn streaming_valid_null() {
    let inputs = [
        &b"{\"a\": null}"[..],
        &b"{ \"a\": null}"[..],
        &b"{\"a\":\n null}"[..],
        &b"{\"a\" : null}"[..],
        &b"{\"a\": null\n}"[..],
        &b"{\"a\": null}"[..],
        &b"{ \"a\" : null }"[..],
    ];
    let expected_result = Ok((&b""[..], vec![(String::from("a"), JsonValue::Null)]));
    for input in &inputs {
        println!("input: '{:?}'", input);
        assert_eq!(&hash(input), &expected_result);
    }
}

#[test]
fn null_valid_null() {
    assert_eq!(null(&b"null"[..]), Ok((&b""[..], ())));
}

#[test]
fn string_valids() {
    let cases: Vec<(&[u8], &str)> = vec![
        (b"\"\"", ""),
        (b"\"abc\"", "abc"),
        (b"\"h8\"", "h8"),
        (b"\"\xE2\x82\xAC67\"", "€67"),
        (b"\"hello world\"", "hello world"),
        (b"\"+46 1234567\"", "+46 1234567"),
    ];
    for (input, expected) in cases {
        println!("input: {:?}", input);
        assert_eq!(string(input), Ok((&b""[..], String::from(expected))));
    }
}

#[test]
fn sp_trn_takes_the_whole_run_of_spaces() {
    assert_eq!(sp_trn(b" \t\r\nx "), Ok((&b"x "[..], &b" \t\r\n"[..])));
    assert_eq!(sp_trn(b"x"), Ok((&b"x"[..], &b""[..])));
    assert_eq!(sp_trn(b" \n\t"), Err(ParseError::Incomplete));
    assert_eq!(sp_trn(b""), Err(ParseError::Incomplete));
}

#[test]
fn null_needs_the_whole_word() {
    assert_eq!(null(b"null,"), Ok((&b","[..], ())));
    assert_eq!(null(b"nul"), Err(ParseError::Incomplete));
    assert_eq!(null(b"nulx"), Err(ParseError::Error));
    assert_eq!(null(b"true"), Err(ParseError::Error));
}

#[test]
fn boolean_reads_true_and_false() {
    assert_eq!(boolean(b"true]"), Ok((&b"]"[..], true)));
    assert_eq!(boolean(b"false]"), Ok((&b"]"[..], false)));
    assert_eq!(boolean(b"fal"), Err(ParseError::Incomplete));
    assert_eq!(boolean(b"tr"), Err(ParseError::Incomplete));
    assert_eq!(boolean(b"yes"), Err(ParseError::Error));
}

#[test]
fn parse_str_reads_letters_digits_and_escapes() {
    assert_eq!(parse_str(b"ab12\"rest"), Ok((&b"\"rest"[..], &b"ab12"[..])));
    assert_eq!(parse_str(b"a\\\"b\\nc\\\\d\""), Ok((&b"\""[..], &b"a\\\"b\\nc\\\\d"[..])));
    assert_eq!(parse_str(b" x"), Ok((&b" x"[..], &b""[..])));
    assert_eq!(parse_str(b"abc"), Err(ParseError::Incomplete));
    assert_eq!(parse_str(b"a\\"), Err(ParseError::Incomplete));
    assert_eq!(parse_str(b"a\\t\""), Err(ParseError::Error));
    assert_eq!(parse_str(b""), Err(ParseError::Incomplete));
}

#[test]
fn parse_string_is_quoted_escaped_text() {
    assert_eq!(parse_string(b"\"ab\\nc\" x"), Ok((&b" x"[..], &b"ab\\nc"[..])));
    assert_eq!(parse_string(b"x"), Err(ParseError::Error));
    assert_eq!(parse_string(b"\"a b\""), Err(ParseError::Failure));
    assert_eq!(parse_string(b"\"a\\t\""), Err(ParseError::Failure));
    assert_eq!(parse_string(b"\"ab"), Err(ParseError::Incomplete));
}

#[test]
fn string_old_reads_text_as_utf8() {
    assert_eq!(string_old(b"\"abc\"]"), Ok((&b"]"[..], "abc")));
    assert_eq!(string_old(b"\"\""), Ok((&b""[..], "")));
}

#[test]
fn parse_literal_and_fragment() {
    assert_eq!(parse_literal(b"ab c\"x"), Ok((&b"\"x"[..], "ab c")));
    assert_eq!(parse_literal(b"\"x"), Err(ParseError::Error));
    assert_eq!(parse_literal(b"\\x"), Err(ParseError::Error));
    assert_eq!(parse_literal(b"abc"), Err(ParseError::Incomplete));
    assert_eq!(parse_literal(b"\xff\""), Err(ParseError::Error));
    assert_eq!(parse_fragment(b"\xE2\x82\xAC\""), Ok((&b"\""[..], StringFragment::Literal("€"))));
}

#[test]
fn string_errors() {
    assert_eq!(string(b"abc"), Err(ParseError::Error));
    assert_eq!(string(b""), Err(ParseError::Incomplete));
    assert_eq!(string(b"\"abc"), Err(ParseError::Incomplete));
    assert_eq!(string(b"\"a\\nb\""), Err(ParseError::Error));
    assert_eq!(string(b"\"\xff\""), Err(ParseError::Error));
}

#[test]
fn numbers_keep_their_text() {
    assert_eq!(json_value(b"1.5]"), Ok((&b"]"[..], num("1.5"))));
    assert_eq!(json_value(b" -12e3,"), Ok((&b","[..], num("-12e3"))));
    assert_eq!(json_value(b"nan]"), Ok((&b"]"[..], num("nan"))));
    assert_eq!(json_value(b"43}"), Ok((&b"}"[..], num("43"))));
    assert_eq!(number(b".5 "), Ok((&b" "[..], b".5".to_vec())));
    assert_eq!(json_value(b"12"), Err(ParseError::Incomplete));
    assert_eq!(json_value(b"1e]"), Err(ParseError::Failure));
}

#[test]
fn number_from_takes_the_recognised_length() {
    assert_eq!(number_from(b"123]", Ok(3)), Ok((&b"]"[..], b"123".to_vec())));
    assert_eq!(number_from(b"12", Ok(3)), Err(ParseError::Error));
    assert_eq!(number_from(b"12", Err(ParseError::Incomplete)), Err(ParseError::Incomplete));
    assert_eq!(number_from(b"x", Err(ParseError::Failure)), Err(ParseError::Failure));
}

#[test]
fn json_value_tries_each_kind_in_order() {
    assert_eq!(json_value(b" null "), Ok((&b" "[..], JsonValue::Null)));
    assert_eq!(json_value(b"\ttrue,"), Ok((&b","[..], JsonValue::Bool(true))));
    assert_eq!(json_value(b"\"x\" "), Ok((&b" "[..], JsonValue::Str(String::from("x")))));
    assert_eq!(
        json_value(b"[1, \"a\", [true]] "),
        Ok((
            &b" "[..],
            JsonValue::Array(vec![
                num("1"),
                JsonValue::Str(String::from("a")),
                JsonValue::Array(vec![JsonValue::Bool(true)]),
            ])
        ))
    );
    assert_eq!(
        json_value(b"{\"a\": {\"b\": null}} "),
        Ok((&b" "[..], obj(vec![("a", obj(vec![("b", JsonValue::Null)]))])))
    );
    assert_eq!(json_value(b"   "), Err(ParseError::Incomplete));
    assert_eq!(json_value(b"x"), Err(ParseError::Error));
    assert_eq!(json_value(b"nu"), Err(ParseError::Incomplete));
}

#[test]
fn array_after_its_bracket_fails_hard() {
    assert_eq!(array(b"[null,]"), Err(ParseError::Failure));
    assert_eq!(array(b"[x]"), Err(ParseError::Failure));
    assert_eq!(array(b"[null"), Err(ParseError::Incomplete));
    assert_eq!(array(b"x"), Err(ParseError::Error));
    assert_eq!(element(b" null "), Ok((&b" "[..], JsonValue::Null)));
}

#[test]
fn objects_keep_the_last_value_of_a_key() {
    assert_eq!(
        hash(b"{\"a\": 1, \"b\": 2, \"a\": 3}"),
        Ok((
            &b""[..],
            vec![(String::from("a"), num("3")), (String::from("b"), num("2"))]
        ))
    );
    assert_eq!(hash(b"{\"a\" null}"), Err(ParseError::Failure));
    assert_eq!(hash(b"{\"a\": null,}"), Err(ParseError::Failure));
    assert_eq!(
        key_value(b" \"k\" : true,"),
        Ok((&b","[..], (String::from("k"), JsonValue::Bool(true))))
    );
}

#[test]
fn collecting_entries_replaces_values_in_place() {
    let raw = vec![
        (String::from("x"), JsonValue::Null),
        (String::from("y"), JsonValue::Bool(true)),
        (String::from("x"), JsonValue::Bool(false)),
    ];
    assert_eq!(
        collect_entries(raw),
        vec![
            (String::from("x"), JsonValue::Bool(false)),
            (String::from("y"), JsonValue::Bool(true)),
        ]
    );
    let mut entries = vec![(String::from("k"), JsonValue::Null)];
    insert_entry(&mut entries, String::from("j"), JsonValue::Bool(true));
    insert_entry(&mut entries, String::from("k"), JsonValue::Bool(false));
    assert_eq!(
        entries,
        vec![
            (String::from("k"), JsonValue::Bool(false)),
            (String::from("j"), JsonValue::Bool(true)),
        ]
    );
}

#[test]
fn a_decided_outcome_does_not_change_with_more_input() {
    for (short, long) in [
        (&b"null"[..], &b"null, 1"[..]),
        (&b"[1 ]"[..], &b"[1 ] [2]"[..]),
        (&b"\"ab\""[..], &b"\"ab\"cd"[..]),
        (&b"{}"[..], &b"{} x"[..]),
    ] {
        let (rest_short, v_short) = json_value(short).unwrap();
        let (rest_long, v_long) = json_value(long).unwrap();
        assert_eq!(v_short, v_long);
        assert_eq!(short.len() - rest_short.len(), long.len() - rest_long.len());
    }
}

#[test]
fn a_string_reads_back_as_its_text() {
    for (text, rest) in [("", &b""[..]), ("abc", &b" tail"[..]), ("h\u{e9} !", &b",1"[..])] {
        let mut input = vec![b'"'];
        input.extend_from_slice(text.as_bytes());
        input.push(b'"');
        input.extend_from_slice(rest);
        assert_eq!(string(&input), Ok((rest, String::from(text))));
    }
}

#[test]
fn leading_spaces_do_not_change_the_value() {
    for x in [&b"null "[..], &b"[1, true]"[..], &b"{\"a\": \"b\"}"[..], &b"x"[..], &b""[..], &b" 7,"[..]] {
        let mut input = b" \t\r\n ".to_vec();
        input.extend_from_slice(x);
        assert_eq!(json_value(&input), json_value(x));
    }
}

#[test]
fn a_number_needs_a_byte_that_can_start_one() {
    assert_eq!(number(b""), Err(ParseError::Incomplete));
    assert_eq!(number(b"\"1\""), Err(ParseError::Error));
    assert_eq!(number(b"[1]"), Err(ParseError::Error));
    assert_eq!(number(b"x1"), Err(ParseError::Error));
    assert_eq!(number(b"-1,"), Ok((&b","[..], b"-1".to_vec())));
}
