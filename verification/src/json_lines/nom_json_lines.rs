//! JSON lines read with the library's own streaming grammar.
use super::LineStep;
use crate::json_value::JsonValue;
use crate::parsers::external::string_with_capacity;
use crate::parsers::streaming::{json_value, spec_json_value};
use crate::parsers::ParseError;
use std::rc::Rc;
use vstd::prelude::*;
use vstd::string::StringSliceAdditionalSpecFns;
use vstd::utf8::encode_utf8;

verus! {

/// Reads one JSON value per line from `reader`, reusing `buf` for the text
/// of each line. The value is read from the start of the line; whatever
/// follows it on the line is left unread.
pub struct NomJsonLinesIterator<R> {
    pub reader: R,
    pub buf: Rc<String>,
}

/// An empty line buffer.
pub fn new_buf() -> (r: Rc<String>)
    ensures
        r@ == Seq::<char>::empty(),
{
    Rc::new(string_with_capacity(1024))
}

impl<R> NomJsonLinesIterator<R> {
    /// The step after a line has been read into `buf`: `read` is the number
    /// of bytes that the read gave, or `None` where it failed. A read of at
    /// least one byte gives the value at the start of the line, or the reason
    /// why there is none; any other read ends the stream.
    pub fn on_line(&self, read: Option<usize>) -> (r: LineStep<JsonValue, ParseError>)
        ensures
            match read {
                Some(n) if n > 0 => match spec_json_value(encode_utf8(self.buf@)) {
                    Ok((_, v)) => r matches LineStep::Value(x) && x@ == v,
                    Err(e) => r matches LineStep::Malformed(x) && x == e,
                },
                _ => r is End,
            },
    {
        match read {
            Some(n) if n > 0 => {
                let row: &String = &*self.buf;
                match json_value(row.as_str().as_bytes()) {
                    Ok((_, value)) => LineStep::Value(value),
                    Err(e) => LineStep::Malformed(e),
                }
            },
            _ => LineStep::End,
        }
    }
}

} // verus!
