# json_streams

Streaming JSON reading, verified with Verus.

- `src/parsers/` — the streaming JSON grammar (`sp_trn`, `null`, `boolean`,
  strings, numbers, `array`, `hash`, `json_value`). Every parser is stated
  against a spec function of the same name over the input bytes: what it
  consumes, what value it gives, and when it fails or asks for more input.
  Numbers are recognised by nom's float recogniser, behind a trusted wrapper.
- `src/json_value.rs` — `JsonValue` and its mathematical model `Json`;
  objects keep one entry per key, the last value given for it.
- `src/json_iter.rs` — the steps that stream the elements of a top-level
  array, and the state of the element iterator.
- `src/json_lines/` — one JSON value per line, read with the library's
  grammar or with `serde_json`.
- `app/` — the program and all input/output: files, standard input,
  buffered readers, and the conversion of number text to `f64`.

The tests under `tests/` run the compiled library with the real outside
crates.
