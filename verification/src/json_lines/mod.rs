//! Streams of JSON values, one per line.
pub mod nom_json_lines;

use crate::parsers::external::{serde_json_parse, serde_value_from_str, string_with_capacity};
use std::rc::Rc;
use vstd::prelude::*;
use vstd::string::StringSliceAdditionalSpecFns;

verus! {

/// Where a stream of JSON lines is read from.
#[derive(Debug, Clone, Copy, PartialEq, Eq, Structural)]
pub enum LineSource {
    /// Standard input, named by the path `-`.
    Stdin,
    /// The file at the path.
    File,
}

/// The path `-`.
pub open spec fn is_dash(path: Seq<u8>) -> bool {
    path == seq![0x2du8]
}

/// Where the lines named by `path` are read from.
pub fn line_source(path: &str) -> (r: LineSource)
    ensures
        (r == LineSource::Stdin) <==> is_dash(path.spec_bytes()),
{
    let b = path.as_bytes();
    if b.len() == 1 && b[0] == 0x2d {
        assert(b@ =~= seq![0x2du8]);
        LineSource::Stdin
    } else {
        LineSource::File
    }
}

/// What a step of a line stream gives after reading one line.
#[derive(Debug)]
pub enum LineStep<V, E> {
    /// The value on the line.
    Value(V),
    /// The read gave no line: the stream has ended.
    End,
    /// The line holds no value; the stream stops with this error.
    Malformed(E),
}

/// An empty line buffer.
pub fn new_buf() -> (r: Rc<String>)
    ensures
        r@ == Seq::<char>::empty(),
{
    Rc::new(string_with_capacity(1024))
}

/// Reads JSON values line by line from `reader` with `serde_json`, reusing
/// `buf` for the text of each line.
pub struct JsonLinesReader<T> {
    pub reader: T,
    pub buf: Rc<String>,
}

impl<T> JsonLinesReader<T> {
    /// The step after a line has been read into `buf`: `read` is the number
    /// of bytes that the read gave, or `None` where it failed. A read of at
    /// least one byte gives the value that `serde_json` reads from the line, or
    /// the message of the error it meets; any other read ends the stream.
    pub fn on_line(&self, read: Option<usize>) -> (r: LineStep<serde_json::Value, String>)
        ensures
            match read {
                Some(n) if n > 0 => match serde_json_parse(self.buf@) {
                    Ok(v) => r == LineStep::<serde_json::Value, String>::Value(v),
                    Err(m) => r matches LineStep::Malformed(e) && e@ == m,
                },
                _ => r is End,
            },
    {
        match read {
            Some(n) if n > 0 => {
                let row: &String = &*self.buf;
                match serde_value_from_str(row.as_str()) {
                    Ok(v) => LineStep::Value(v),
                    Err(e) => LineStep::Malformed(e),
                }
            },
            _ => LineStep::End,
        }
    }
}

} // verus!
