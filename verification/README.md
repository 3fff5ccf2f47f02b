# tjson

A small JSON library verified with Verus: a lexer and a parser from text to
values, and compact and indented writers from values to text.

- `src/` is the verified library. `text.rs` holds character helpers,
  `value.rs` the value type with its mathematical model and the operations on
  objects (kept in key order), `lexer.rs` and `parser.rs` read text, each
  against a spec function that says what a text denotes, `serializer.rs`
  writes text, and `roundtrip.rs` proves that what the writers produce reads
  back as the value written.
- `app/` is the command-line demo. Its own value type holds numbers as `f64`;
  converting between a number's text and an `f64` is floating point, which the
  library leaves to it.
- `tests/` runs the library on concrete inputs.
