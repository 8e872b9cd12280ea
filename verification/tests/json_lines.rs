use json_streams::json_lines::nom_json_lines::{self, NomJsonLinesIterator};
use json_streams::json_lines::{self, line_source, JsonLinesReader, LineSource, LineStep};
use json_streams::parsers::ParseError;
use json_streams::{input_format, Error, InputFormat, JsonValue};
use std::io::{self, BufRead};
use std::rc::Rc;

fn read_into(buf: &mut Rc<String>, reader: &mut impl BufRead) -> Option<usize> {
    if Rc::get_mut(buf).is_none() {
        *buf = Default::default();
    }
    let buffer = Rc::get_mut(buf).unwrap();
    buffer.clear();
    reader.read_line(buffer).ok()
}

#[test]
fn nom_json_lines_create_json_lines_reader() {
    let data = "{\"a\":1}\n{\"a\":1}\n".as_bytes();
    let mut json_lines_reader = NomJsonLinesIterator {
        reader: io::BufReader::new(data),
        buf: Default::default(),
    };
    let expected = JsonValue::Object(vec![(String::from("a"), JsonValue::Num(b"1".to_vec()))]);
    let mut count = 0;
    loop {
        let read = read_into(&mut json_lines_reader.buf, &mut json_lines_reader.reader);
        match json_lines_reader.on_line(read) {
            LineStep::Value(v) => {
                assert_eq!(v, expected);
                count += 1;
            }
            LineStep::End => break,
            LineStep::Malformed(e) => panic!("error: {:?}", e),
        }
    }
    assert_eq!(count, 2);
}

#[test]
fn json_lines_create_json_lines_reader() {
    let data = "{\"a\":1}\n{\"a\":1}\n".as_bytes();
    let mut json_lines_reader = JsonLinesReader {
        reader: io::BufReader::new(data),
        buf: Default::default(),
    };
    let expected: serde_json::Value = serde_json::from_str("{\"a\": 1}").unwrap();
    let mut count = 0;
    loop {
        let read = read_into(&mut json_lines_reader.buf, &mut json_lines_reader.reader);
        match json_lines_reader.on_line(read) {
            LineStep::Value(v) => {
                assert_eq!(v, expected);
                count += 1;
            }
            LineStep::End => break,
            LineStep::Malformed(e) => panic!("error: {}", e),
        }
    }
    assert_eq!(count, 2);
}

#[test]
fn a_line_step_reads_the_value_at_the_start_of_the_line() {
    let it = NomJsonLinesIterator { reader: (), buf: Rc::new(String::from("[1, 2] tail\n")) };
    match it.on_line(Some(12)) {
        LineStep::Value(v) => assert_eq!(
            v,
            JsonValue::Array(vec![JsonValue::Num(b"1".to_vec()), JsonValue::Num(b"2".to_vec())])
        ),
        other => panic!("unexpected: {:?}", other),
    }
    assert!(matches!(it.on_line(Some(0)), LineStep::End));
    assert!(matches!(it.on_line(None), LineStep::End));
    let bad = NomJsonLinesIterator { reader: (), buf: Rc::new(String::from("x\n")) };
    assert!(matches!(bad.on_line(Some(2)), LineStep::Malformed(ParseError::Error)));
    let cut = NomJsonLinesIterator { reader: (), buf: Rc::new(String::from("[1,]\n")) };
    assert!(matches!(cut.on_line(Some(5)), LineStep::Malformed(ParseError::Failure)));
}

#[test]
fn a_serde_line_step_reports_what_serde_rejects() {
    let it = JsonLinesReader { reader: (), buf: Rc::new(String::from("{\"a\": [1]}\n")) };
    let expected: serde_json::Value = serde_json::from_str("{\"a\": [1]}").unwrap();
    match it.on_line(Some(11)) {
        LineStep::Value(v) => assert_eq!(v, expected),
        other => panic!("unexpected: {:?}", other),
    }
    let bad = JsonLinesReader { reader: (), buf: Rc::new(String::from("{x\n")) };
    let message = serde_json::from_str::<serde_json::Value>("{x\n").unwrap_err().to_string();
    match bad.on_line(Some(3)) {
        LineStep::Malformed(m) => assert_eq!(m, message),
        other => panic!("unexpected: {:?}", other),
    }
    assert!(matches!(bad.on_line(Some(0)), LineStep::End));
}

#[test]
fn buffers_start_empty() {
    assert_eq!(json_lines::new_buf().as_str(), "");
    assert_eq!(nom_json_lines::new_buf().as_str(), "");
}

#[test]
fn the_path_decides_how_input_is_read() {
    assert_eq!(line_source("-"), LineSource::Stdin);
    assert_eq!(line_source("data.jsonl"), LineSource::File);
    assert_eq!(line_source("--"), LineSource::File);
    assert_eq!(input_format("-"), InputFormat::JsonLines);
    assert_eq!(input_format("data/test.jsonl"), InputFormat::JsonLines);
    assert_eq!(input_format(".jsonl"), InputFormat::JsonLines);
    assert_eq!(input_format("data/test.json"), InputFormat::Json);
    assert_eq!(input_format("jsonl"), InputFormat::Json);
    assert_eq!(input_format("a.jsonlx"), InputFormat::Json);
}

#[test]
fn io_errors_convert() {
    let e: Error = io::Error::new(io::ErrorKind::NotFound, "missing").into();
    match e {
        Error::IoError(inner) => assert_eq!(inner.kind(), io::ErrorKind::NotFound),
    }
}
