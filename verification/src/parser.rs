//! The parser: from tokens to a value.

use vstd::prelude::*;
use crate::error::{ErrorModel, JsonError, JsonResult, err};
use crate::lexer::{Tok, Token, tokens_model};
use crate::value::{
    JValue,
    JsonValue,
    entries_model,
    lemma_array_model,
    lemma_object_model,
    obj_insert,
    object_insert,
    values_model,
};

verus! {

/// The name of a token kind, as used in messages.
pub open spec fn tok_name(t: Tok) -> Seq<char> {
    match t {
        Tok::LeftBrace => "LeftBrace"@,
        Tok::RightBrace => "RightBrace"@,
        Tok::LeftBracket => "LeftBracket"@,
        Tok::RightBracket => "RightBracket"@,
        Tok::Colon => "Colon"@,
        Tok::Comma => "Comma"@,
        Tok::Null => "Null"@,
        Tok::Bool(_) => "Bool"@,
        Tok::Number(_) => "Number"@,
        Tok::Str(_) => "String"@,
    }
}

pub open spec fn msg_unexpected_token(t: Tok) -> Seq<char> {
    "unexpected token: "@ + tok_name(t)
}

pub open spec fn msg_expected(expected: Tok, found: Tok) -> Seq<char> {
    "expected "@ + tok_name(expected) + ", found "@ + tok_name(found)
}

/// Token `expected` at `p`: the position after it.
pub open spec fn expect_tok(t: Seq<Tok>, p: int, expected: Tok) -> Result<int, ErrorModel> {
    if p < 0 || p >= t.len() {
        Err(err("unexpected end of input"@, p))
    } else if t[p] == expected {
        Ok(p + 1)
    } else {
        Err(err(msg_expected(expected, t[p]), p))
    }
}

/// The value whose first token is at `p`, and the position after it.
pub open spec fn parse_value_at(t: Seq<Tok>, p: int) -> Result<(JValue, int), ErrorModel>
    decreases t.len() - p, 1int,
{
    if p < 0 || p >= t.len() {
        Err(err("unexpected end of input"@, p))
    } else {
        match t[p] {
            Tok::Null => Ok((JValue::Null, p + 1)),
            Tok::Bool(b) => Ok((JValue::Bool(b), p + 1)),
            Tok::Number(n) => Ok((JValue::Number(n), p + 1)),
            Tok::Str(s) => Ok((JValue::Str(s), p + 1)),
            Tok::LeftBracket => parse_array_at(t, p),
            Tok::LeftBrace => parse_object_at(t, p),
            other => Err(err(msg_unexpected_token(other), p)),
        }
    }
}

/// The array whose `[` is at `p`: `[]` or `[` value (`,` value)* `]`.
pub open spec fn parse_array_at(t: Seq<Tok>, p: int) -> Result<(JValue, int), ErrorModel>
    decreases t.len() - p, 0int,
{
    match expect_tok(t, p, Tok::LeftBracket) {
        Err(e) => Err(e),
        Ok(q) => if q < t.len() && t[q] == Tok::RightBracket {
            Ok((JValue::Array(seq![]), q + 1))
        } else {
            array_items(t, q, seq![])
        },
    }
}

/// The rest of an array from the element at `q`, after the elements `acc`.
/// (A value always ends after where it starts, so the `q < q1` test only makes
/// the termination of this definition evident.)
pub open spec fn array_items(t: Seq<Tok>, q: int, acc: Seq<JValue>) -> Result<
    (JValue, int),
    ErrorModel,
>
    decreases t.len() - q, 2int,
{
    match parse_value_at(t, q) {
        Err(e) => Err(e),
        Ok((v, q1)) => if q < q1 {
            if q1 >= t.len() {
                Err(err("unexpected end of input"@, q1))
            } else if t[q1] == Tok::Comma {
                array_items(t, q1 + 1, acc.push(v))
            } else if t[q1] == Tok::RightBracket {
                Ok((JValue::Array(acc.push(v)), q1 + 1))
            } else {
                Err(err("expected ',' or ']'"@, q1))
            }
        } else {
            Err(err("unexpected end of input"@, q1))
        },
    }
}

/// The object whose `{` is at `p`: `{}` or `{` member (`,` member)* `}`.
pub open spec fn parse_object_at(t: Seq<Tok>, p: int) -> Result<(JValue, int), ErrorModel>
    decreases t.len() - p, 0int,
{
    match expect_tok(t, p, Tok::LeftBrace) {
        Err(e) => Err(e),
        Ok(q) => if q < t.len() && t[q] == Tok::RightBrace {
            Ok((JValue::Object(seq![]), q + 1))
        } else {
            object_members(t, q, seq![])
        },
    }
}

/// The rest of an object from the member at `q`, after the entries `acc`;
/// a later member replaces an earlier one with the same key.
pub open spec fn object_members(t: Seq<Tok>, q: int, acc: Seq<(Seq<char>, JValue)>) -> Result<
    (JValue, int),
    ErrorModel,
>
    decreases t.len() - q, 2int,
{
    if q < 0 || q >= t.len() {
        Err(err("unexpected end of input"@, q))
    } else {
        match t[q] {
            Tok::Str(k) => match expect_tok(t, q + 1, Tok::Colon) {
                Err(e) => Err(e),
                Ok(q2) => match parse_value_at(t, q2) {
                    Err(e) => Err(e),
                    Ok((v, q3)) => if q2 < q3 {
                        let acc2 = obj_insert(acc, k, v);
                        if q3 >= t.len() {
                            Err(err("unexpected end of input"@, q3))
                        } else if t[q3] == Tok::Comma {
                            object_members(t, q3 + 1, acc2)
                        } else if t[q3] == Tok::RightBrace {
                            Ok((JValue::Object(acc2), q3 + 1))
                        } else {
                            Err(err("expected ',' or '}'"@, q3))
                        }
                    } else {
                        Err(err("unexpected end of input"@, q3))
                    },
                },
            },
            _ => Err(err("expected string key"@, q)),
        }
    }
}

/// One value from `p` that takes all the remaining tokens.
pub open spec fn parse_tokens_from(t: Seq<Tok>, p: int) -> Result<JValue, ErrorModel> {
    match parse_value_at(t, p) {
        Err(e) => Err(e),
        Ok((v, q)) => if q < t.len() {
            Err(err("unexpected token after json value"@, q))
        } else {
            Ok(v)
        },
    }
}

/// The value of a whole token sequence.
pub open spec fn parse_tokens(t: Seq<Tok>) -> Result<JValue, ErrorModel> {
    parse_tokens_from(t, 0)
}

pub proof fn lemma_parse_value_advances(t: Seq<Tok>, p: int)
    ensures
        parse_value_at(t, p) matches Ok((v, q)) ==> p < q <= t.len(),
    decreases t.len() - p, 1int,
{
    if 0 <= p < t.len() {
        match t[p] {
            Tok::LeftBracket => lemma_parse_array_advances(t, p),
            Tok::LeftBrace => lemma_parse_object_advances(t, p),
            _ => {},
        }
    }
}

pub proof fn lemma_parse_array_advances(t: Seq<Tok>, p: int)
    ensures
        parse_array_at(t, p) matches Ok((v, q)) ==> p < q <= t.len(),
    decreases t.len() - p, 0int,
{
    if let Ok(q) = expect_tok(t, p, Tok::LeftBracket) {
        if !(q < t.len() && t[q] == Tok::RightBracket) {
            lemma_array_items_advances(t, q, seq![]);
        }
    }
}

pub proof fn lemma_array_items_advances(t: Seq<Tok>, q: int, acc: Seq<JValue>)
    ensures
        array_items(t, q, acc) matches Ok((v, r)) ==> q < r <= t.len(),
    decreases t.len() - q, 2int,
{
    lemma_parse_value_advances(t, q);
    if let Ok((v, q1)) = parse_value_at(t, q) {
        if q < q1 && q1 < t.len() && t[q1] == Tok::Comma {
            lemma_array_items_advances(t, q1 + 1, acc.push(v));
        }
    }
}

pub proof fn lemma_parse_object_advances(t: Seq<Tok>, p: int)
    ensures
        parse_object_at(t, p) matches Ok((v, q)) ==> p < q <= t.len(),
    decreases t.len() - p, 0int,
{
    if let Ok(q) = expect_tok(t, p, Tok::LeftBrace) {
        if !(q < t.len() && t[q] == Tok::RightBrace) {
            lemma_object_members_advances(t, q, seq![]);
        }
    }
}

pub proof fn lemma_object_members_advances(t: Seq<Tok>, q: int, acc: Seq<(Seq<char>, JValue)>)
    ensures
        object_members(t, q, acc) matches Ok((v, r)) ==> q < r <= t.len(),
    decreases t.len() - q, 2int,
{
    if 0 <= q < t.len() {
        if let Tok::Str(k) = t[q] {
            if let Ok(q2) = expect_tok(t, q + 1, Tok::Colon) {
                lemma_parse_value_advances(t, q2);
                if let Ok((v, q3)) = parse_value_at(t, q2) {
                    if q2 < q3 && q3 < t.len() && t[q3] == Tok::Comma {
                        lemma_object_members_advances(t, q3 + 1, obj_insert(acc, k, v));
                    }
                }
            }
        }
    }
}

// ---------------------------------------------------------------------------
// Executable parser

/// The outcome `res` of parsing a value agrees with `spec`, and the parser
/// then stands at `pos`.
pub open spec fn value_agrees(
    res: JsonResult<JsonValue>,
    spec: Result<(JValue, int), ErrorModel>,
    pos: int,
) -> bool {
    match spec {
        Ok((v, e)) => res matches Ok(x) && x.model() == v && pos == e,
        Err(x) => res matches Err(er) && er.model() == x,
    }
}

/// The name of a token's kind.
fn token_name(t: &Token) -> (r: String)
    ensures
        r@ == tok_name(t.model()),
{
    match t {
        Token::LeftBrace => String::from_str("LeftBrace"),
        Token::RightBrace => String::from_str("RightBrace"),
        Token::LeftBracket => String::from_str("LeftBracket"),
        Token::RightBracket => String::from_str("RightBracket"),
        Token::Colon => String::from_str("Colon"),
        Token::Comma => String::from_str("Comma"),
        Token::Null => String::from_str("Null"),
        Token::Bool(_) => String::from_str("Bool"),
        Token::Number(_) => String::from_str("Number"),
        Token::String(_) => String::from_str("String"),
    }
}

/// A copy of a token.
fn copy_token(t: &Token) -> (r: Token)
    ensures
        r.model() == t.model(),
{
    match t {
        Token::LeftBrace => Token::LeftBrace,
        Token::RightBrace => Token::RightBrace,
        Token::LeftBracket => Token::LeftBracket,
        Token::RightBracket => Token::RightBracket,
        Token::Colon => Token::Colon,
        Token::Comma => Token::Comma,
        Token::Null => Token::Null,
        Token::Bool(b) => Token::Bool(*b),
        Token::Number(n) => Token::Number(n.clone()),
        Token::String(s) => Token::String(s.clone()),
    }
}

/// Whether two tokens are the same.
fn same_token(a: &Token, b: &Token) -> (r: bool)
    ensures
        r == (a.model() == b.model()),
{
    match (a, b) {
        (Token::LeftBrace, Token::LeftBrace) => true,
        (Token::RightBrace, Token::RightBrace) => true,
        (Token::LeftBracket, Token::LeftBracket) => true,
        (Token::RightBracket, Token::RightBracket) => true,
        (Token::Colon, Token::Colon) => true,
        (Token::Comma, Token::Comma) => true,
        (Token::Null, Token::Null) => true,
        (Token::Bool(x), Token::Bool(y)) => *x == *y,
        (Token::Number(x), Token::Number(y)) => *x == *y,
        (Token::String(x), Token::String(y)) => *x == *y,
        _ => false,
    }
}

pub struct Parser {
    tokens: Vec<Token>,
    pos: usize,
}

impl Parser {
    #[verifier::type_invariant]
    spec fn inv(&self) -> bool {
        self.pos <= self.tokens.len()
    }

    /// The models of the tokens being parsed.
    pub closed spec fn token_models(&self) -> Seq<Tok> {
        tokens_model(self.tokens@)
    }

    /// The index of the next token.
    pub closed spec fn position(&self) -> int {
        self.pos as int
    }

    pub fn new(tokens: Vec<Token>) -> (p: Parser)
        ensures
            p.token_models() == tokens_model(tokens@),
            p.position() == 0,
    {
        Parser { tokens, pos: 0 }
    }

    /// One value that takes all the remaining tokens.
    pub fn parse(&mut self) -> (res: JsonResult<JsonValue>)
        ensures
            final(self).token_models() == old(self).token_models(),
            res is Ok ==> final(self).position() == final(self).token_models().len(),
            match parse_tokens_from(old(self).token_models(), old(self).position()) {
                Ok(v) => res matches Ok(x) && x.model() == v,
                Err(e) => res matches Err(er) && er.model() == e,
            },
    {
        let value = match self.parse_value() {
            Ok(v) => v,
            Err(e) => {
                return Err(e);
            },
        };
        proof {
            use_type_invariant(&*self);
        }
        if self.pos < self.tokens.len() {
            return Err(
                JsonError::new(String::from_str("unexpected token after json value"), self.pos),
            );
        }
        Ok(value)
    }

    fn peek(&self) -> (r: Option<&Token>)
        ensures
            self.position() < self.token_models().len() ==> r is Some && r.unwrap().model()
                == self.token_models()[self.position()],
            self.position() >= self.token_models().len() ==> r is None,
    {
        if self.pos < self.tokens.len() {
            Some(&self.tokens[self.pos])
        } else {
            None
        }
    }

    /// The next token; the parser moves past it.
    fn advance(&mut self) -> (res: JsonResult<Token>)
        ensures
            final(self).token_models() == old(self).token_models(),
            old(self).position() < old(self).token_models().len() ==> (res matches Ok(t)
                && t.model() == old(self).token_models()[old(self).position()]
                && final(self).position() == old(self).position() + 1),
            old(self).position() >= old(self).token_models().len() ==> (res matches Err(e)
                && e.model() == err("unexpected end of input"@, old(self).position())),
    {
        if self.pos >= self.tokens.len() {
            return Err(JsonError::new(String::from_str("unexpected end of input"), self.pos));
        }
        let token = copy_token(&self.tokens[self.pos]);
        self.pos = self.pos + 1;
        Ok(token)
    }

    /// The next token must be `expected`.
    fn expect(&mut self, expected: &Token) -> (res: JsonResult<()>)
        ensures
            final(self).token_models() == old(self).token_models(),
            match expect_tok(old(self).token_models(), old(self).position(), expected.model()) {
                Ok(q) => res is Ok && final(self).position() == q,
                Err(x) => res matches Err(er) && er.model() == x,
            },
    {
        let token = match self.advance() {
            Ok(t) => t,
            Err(e) => {
                return Err(e);
            },
        };
        if !same_token(&token, expected) {
            let mut m = String::from_str("expected ");
            let a = token_name(expected);
            m.append(a.as_str());
            m.append(", found ");
            let b = token_name(&token);
            m.append(b.as_str());
            return Err(JsonError::new(m, self.pos - 1));
        }
        Ok(())
    }

    fn parse_value(&mut self) -> (res: JsonResult<JsonValue>)
        ensures
            final(self).token_models() == old(self).token_models(),
            value_agrees(
                res,
                parse_value_at(old(self).token_models(), old(self).position()),
                final(self).position(),
            ),
        decreases old(self).tokens.len() - old(self).pos, 1int,
    {
        proof {
            use_type_invariant(&*self);
        }
        match self.peek() {
            Some(Token::Null) => {
                self.pos = self.pos + 1;
                Ok(JsonValue::Null)
            },
            Some(Token::Bool(b)) => {
                let v = JsonValue::Bool(*b);
                self.pos = self.pos + 1;
                Ok(v)
            },
            Some(Token::Number(n)) => {
                let v = JsonValue::Number(n.clone());
                self.pos = self.pos + 1;
                Ok(v)
            },
            Some(Token::String(s)) => {
                let v = JsonValue::String(s.clone());
                self.pos = self.pos + 1;
                Ok(v)
            },
            Some(Token::LeftBracket) => self.parse_array(),
            Some(Token::LeftBrace) => self.parse_object(),
            Some(other) => {
                let mut m = String::from_str("unexpected token: ");
                let name = token_name(other);
                m.append(name.as_str());
                Err(JsonError::new(m, self.pos))
            },
            None => Err(JsonError::new(String::from_str("unexpected end of input"), self.pos)),
        }
    }

    /// `[]` or `[` value (`,` value)* `]`.
    fn parse_array(&mut self) -> (res: JsonResult<JsonValue>)
        ensures
            final(self).token_models() == old(self).token_models(),
            value_agrees(
                res,
                parse_array_at(old(self).token_models(), old(self).position()),
                final(self).position(),
            ),
        decreases old(self).tokens.len() - old(self).pos, 0int,
    {
        proof {
            use_type_invariant(&*self);
        }
        let ghost t = self.token_models();
        let ghost p0 = self.pos as int;
        match self.expect(&Token::LeftBracket) {
            Ok(()) => {},
            Err(e) => {
                return Err(e);
            },
        }
        let mut arr: Vec<JsonValue> = Vec::new();
        if self.pos < self.tokens.len() && matches!(self.tokens[self.pos], Token::RightBracket) {
            self.pos = self.pos + 1;
            proof {
                lemma_array_model(arr);
                assert(values_model(arr@) =~= Seq::<JValue>::empty());
            }
            return Ok(JsonValue::Array(arr));
        }
        assert(values_model(arr@) =~= Seq::<JValue>::empty());
        loop
            invariant
                self.token_models() == t,
                t == old(self).token_models(),
                p0 == old(self).pos,
                p0 < self.pos <= t.len(),
                self.tokens.len() == t.len(),
                parse_array_at(t, p0) == array_items(t, self.pos as int, values_model(arr@)),
            decreases t.len() - self.pos,
        {
            let ghost q = self.pos as int;
            proof {
                lemma_parse_value_advances(t, q);
            }
            let v = match self.parse_value() {
                Ok(v) => v,
                Err(e) => {
                    return Err(e);
                },
            };
            let ghost vm = v.model();
            let ghost prev = arr@;
            arr.push(v);
            assert(values_model(arr@) =~= values_model(prev).push(vm));
            let token = match self.advance() {
                Ok(t) => t,
                Err(e) => {
                    return Err(e);
                },
            };
            match token {
                Token::Comma => {},
                Token::RightBracket => {
                    proof {
                        lemma_array_model(arr);
                    }
                    return Ok(JsonValue::Array(arr));
                },
                _ => {
                    return Err(JsonError::new(String::from_str("expected ',' or ']'"), self.pos - 1));
                },
            }
        }
    }

    /// `{}` or `{` string `:` value (`,` string `:` value)* `}`.
    fn parse_object(&mut self) -> (res: JsonResult<JsonValue>)
        ensures
            final(self).token_models() == old(self).token_models(),
            value_agrees(
                res,
                parse_object_at(old(self).token_models(), old(self).position()),
                final(self).position(),
            ),
        decreases old(self).tokens.len() - old(self).pos, 0int,
    {
        proof {
            use_type_invariant(&*self);
        }
        let ghost t = self.token_models();
        let ghost p0 = self.pos as int;
        match self.expect(&Token::LeftBrace) {
            Ok(()) => {},
            Err(e) => {
                return Err(e);
            },
        }
        let mut map: Vec<(String, JsonValue)> = Vec::new();
        if self.pos < self.tokens.len() && matches!(self.tokens[self.pos], Token::RightBrace) {
            self.pos = self.pos + 1;
            proof {
                lemma_object_model(map);
                assert(entries_model(map@) =~= Seq::<(Seq<char>, JValue)>::empty());
            }
            return Ok(JsonValue::Object(map));
        }
        assert(entries_model(map@) =~= Seq::<(Seq<char>, JValue)>::empty());
        loop
            invariant
                self.token_models() == t,
                t == old(self).token_models(),
                p0 == old(self).pos,
                p0 < self.pos <= t.len(),
                self.tokens.len() == t.len(),
                parse_object_at(t, p0) == object_members(t, self.pos as int, entries_model(map@)),
            decreases t.len() - self.pos,
        {
            let ghost q = self.pos as int;
            let token = match self.advance() {
                Ok(t) => t,
                Err(e) => {
                    return Err(e);
                },
            };
            let key = match token {
                Token::String(s) => s,
                _ => {
                    return Err(JsonError::new(String::from_str("expected string key"), self.pos - 1));
                },
            };
            match self.expect(&Token::Colon) {
                Ok(()) => {},
                Err(e) => {
                    return Err(e);
                },
            }
            proof {
                lemma_parse_value_advances(t, q + 2);
            }
            let v = match self.parse_value() {
                Ok(v) => v,
                Err(e) => {
                    return Err(e);
                },
            };
            object_insert(&mut map, key, v);
            let token = match self.advance() {
                Ok(t) => t,
                Err(e) => {
                    return Err(e);
                },
            };
            match token {
                Token::Comma => {},
                Token::RightBrace => {
                    proof {
                        lemma_object_model(map);
                    }
                    return Ok(JsonValue::Object(map));
                },
                _ => {
                    return Err(JsonError::new(String::from_str("expected ',' or '}'"), self.pos - 1));
                },
            }
        }
    }
}

} // verus!
