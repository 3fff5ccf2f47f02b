//! The error type of the library: a message and the position it refers to.

use vstd::prelude::*;
use crate::text::{decimal, decimal_string};

verus! {

/// Mathematical model of an error: the message and the position.
pub struct ErrorModel {
    pub msg: Seq<char>,
    pub pos: int,
}

/// An error with the position (a character index for lexing errors, a token
/// index for parsing errors) it refers to.
#[derive(Debug, Clone, PartialEq)]
pub struct JsonError {
    pub message: String,
    pub position: usize,
}

pub type JsonResult<T> = Result<T, JsonError>;

/// The model of an error with message `msg` at position `pos`.
pub open spec fn err(msg: Seq<char>, pos: int) -> ErrorModel {
    ErrorModel { msg, pos }
}

impl JsonError {
    pub open spec fn model(&self) -> ErrorModel {
        ErrorModel { msg: self.message@, pos: self.position as int }
    }

    pub fn new(message: String, position: usize) -> (e: JsonError)
        ensures
            e.message == message,
            e.position == position,
            e.model() == err(message@, position as int),
    {
        JsonError { message, position }
    }

    /// The text shown for the error: `JSON error at position <p>: <message>`.
    pub fn describe(&self) -> (r: String)
        ensures
            r@ == "JSON error at position "@ + decimal(self.position as nat) + ": "@ + self.message@,
    {
        let mut r = String::from_str("JSON error at position ");
        let p = decimal_string(self.position);
        r.append(p.as_str());
        r.append(": ");
        r.append(self.message.as_str());
        r
    }
}

} // verus!
