//! Streaming JSON: values read one at a time from a JSON document, from the
//! elements of a top-level array, or from JSON lines.
pub mod json_iter;
pub mod json_lines;
pub mod json_value;
pub mod parsers;

pub use json_value::JsonValue;

use vstd::prelude::*;
use vstd::string::StringSliceAdditionalSpecFns;

verus! {

#[verifier::external_type_specification]
#[verifier::external_body]
pub struct ExIoError(std::io::Error);

/// Why a stream could not be opened.
#[derive(Debug)]
pub enum Error {
    IoError(std::io::Error),
}

impl From<std::io::Error> for Error {
    fn from(e: std::io::Error) -> (r: Self) {
        Error::IoError(e)
    }
}

impl vstd::std_specs::convert::FromSpecImpl<std::io::Error> for Error {
    open spec fn obeys_from_spec() -> bool {
        true
    }

    open spec fn from_spec(e: std::io::Error) -> Self {
        Error::IoError(e)
    }
}

/// How the input at a path is read.
#[derive(Debug, Clone, Copy, PartialEq, Eq, Structural)]
pub enum InputFormat {
    /// One JSON value per line.
    JsonLines,
    /// One JSON document: a value, or an array whose elements are streamed.
    Json,
}

/// The path ends with `.jsonl`.
pub open spec fn ends_with_jsonl(path: Seq<u8>) -> bool {
    path.len() >= 6 && path.subrange(path.len() - 6, path.len() as int) == seq![
        0x2eu8,
        0x6a,
        0x73,
        0x6f,
        0x6e,
        0x6c,
    ]
}

/// How the input named by `path` is read: standard input (the path `-`)
/// and paths ending with `.jsonl` hold JSON lines, any other path one JSON
/// document.
pub fn input_format(path: &str) -> (r: InputFormat)
    ensures
        (r == InputFormat::JsonLines) <==> (json_lines::is_dash(path.spec_bytes())
            || ends_with_jsonl(path.spec_bytes())),
{
    if json_lines::line_source(path) == json_lines::LineSource::Stdin {
        return InputFormat::JsonLines;
    }
    let b = path.as_bytes();
    let suffix: [u8; 6] = [0x2e, 0x6a, 0x73, 0x6f, 0x6e, 0x6c];
    assert(suffix@ =~= seq![0x2eu8, 0x6a, 0x73, 0x6f, 0x6e, 0x6c]);
    if b.len() < 6 {
        return InputFormat::Json;
    }
    let start = b.len() - 6;
    let mut i: usize = 0;
    while i < 6
        invariant
            0 <= i <= 6,
            start + 6 == b@.len(),
            b@.len() == b.len(),
            b@ == path.spec_bytes(),
            !json_lines::is_dash(b@),
            suffix@ == seq![0x2eu8, 0x6a, 0x73, 0x6f, 0x6e, 0x6c],
            forall|j: int| 0 <= j < i ==> b@[start + j] == suffix@[j],
        decreases 6 - i,
    {
        if b[start + i] != suffix[i] {
            assert(b@.subrange(start as int, b@.len() as int)[i as int] != suffix@[i as int]);
            return InputFormat::Json;
        }
        i += 1;
    }
    assert(b@.subrange(start as int, b@.len() as int) =~= suffix@);
    InputFormat::JsonLines
}

} // verus!
