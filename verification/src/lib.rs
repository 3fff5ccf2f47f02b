//! A small JSON library: a lexer and a parser from text to values, and
//! compact and indented writers from values to text.

pub mod error;
pub mod laws;
pub mod lexer;
pub mod parser;
pub mod roundtrip;
pub mod serializer;
pub mod text;
pub mod value;

pub use error::{JsonError, JsonResult};
pub use value::JsonValue;

use vstd::prelude::*;
use crate::error::ErrorModel;
use crate::lexer::{Lexer, lex};
use crate::parser::{Parser, parse_tokens};
use crate::serializer::{compact_text, nesting, pretty_text};
use crate::roundtrip::{lemma_lex_compact, lemma_lex_pretty_text, lemma_parse_value_tokens, lemma_parsed_wf, well_formed};
use crate::value::JValue;

verus! {

/// The value a text denotes, or the first error in it.
pub open spec fn parse_text(s: Seq<char>) -> Result<JValue, ErrorModel> {
    match lex(s) {
        Err(e) => Err(e),
        Ok(t) => parse_tokens(t),
    }
}

/// Parses a JSON text.
pub fn parse(input: &str) -> (res: JsonResult<JsonValue>)
    ensures
        match parse_text(input@) {
            Ok(v) => res matches Ok(x) && x.model() == v,
            Err(e) => res matches Err(er) && er.model() == e,
        },
{
    let mut lexer = Lexer::new(input);
    let tokens = match lexer.tokenize() {
        Ok(t) => t,
        Err(e) => {
            return Err(e);
        },
    };
    let mut parser = Parser::new(tokens);
    parser.parse()
}

/// The compact text of a value.
pub fn stringify(value: &JsonValue) -> (r: String)
    ensures
        r@ == compact_text(value.model()),
{
    serializer::stringify(value)
}

/// The indented text of a value, `indent` spaces per level.
pub fn stringify_pretty(value: &JsonValue, indent: usize) -> (r: String)
    requires
        nesting(value.model()) <= usize::MAX,
        nesting(value.model()) * indent <= usize::MAX,
    ensures
        r@ == pretty_text(value.model(), 0, indent as int).push('\n'),
{
    serializer::stringify_pretty(value, indent)
}

/// Reading back the compact text of a well-formed value gives the value:
/// `parse(&stringify(&v))` returns `v`.
pub proof fn law_parse_stringify(v: JValue)
    requires
        well_formed(v),
    ensures
        parse_text(compact_text(v)) == Ok::<JValue, ErrorModel>(v),
{
    lemma_lex_compact(v);
    lemma_parse_value_tokens(v);
}

/// Reading back the indented text of a well-formed value, with any
/// indentation, gives the value: `parse(&stringify_pretty(&v, n))` returns `v`.
pub proof fn law_parse_stringify_pretty(v: JValue, indent: nat)
    requires
        well_formed(v),
    ensures
        parse_text(pretty_text(v, 0, indent as int).push('\n')) == Ok::<JValue, ErrorModel>(v),
{
    lemma_lex_pretty_text(v, indent as int);
    lemma_parse_value_tokens(v);
}

/// Every value that parsing returns is well formed, so writing it (compact or
/// indented) and reading it back gives it again.
pub proof fn law_parsed_values_are_well_formed(s: Seq<char>, indent: nat)
    ensures
        parse_text(s) matches Ok(v) ==> well_formed(v),
        parse_text(s) matches Ok(v) ==> parse_text(compact_text(v)) == Ok::<JValue, ErrorModel>(v),
        parse_text(s) matches Ok(v) ==> parse_text(pretty_text(v, 0, indent as int).push('\n'))
            == Ok::<JValue, ErrorModel>(v),
{
    lemma_parsed_wf(s);
    if let Ok(v) = parse_text(s) {
        law_parse_stringify(v);
        law_parse_stringify_pretty(v, indent);
    }
}

} // verus!

