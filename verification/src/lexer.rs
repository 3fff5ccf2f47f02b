//! The lexer: from characters to tokens.

use vstd::prelude::*;
use crate::error::{ErrorModel, JsonError, JsonResult, err};
use crate::text::{chars_of, hex_upper, hex_upper_char, hex_digit_value, is_control, is_control_char, is_digit, is_digit_char, is_hex, hex_val, is_whitespace_char, is_ws, lemma_char_code};

verus! {

/// Mathematical model of a token.
pub enum Tok {
    LeftBrace,
    RightBrace,
    LeftBracket,
    RightBracket,
    Colon,
    Comma,
    Null,
    Bool(bool),
    Number(Seq<char>),
    Str(Seq<char>),
}

/// A token. A number holds its text as written in the input.
#[derive(Debug, Clone, PartialEq)]
pub enum Token {
    LeftBrace,
    RightBrace,
    LeftBracket,
    RightBracket,
    Colon,
    Comma,
    Null,
    Bool(bool),
    Number(String),
    String(String),
}

impl Token {
    pub open spec fn model(&self) -> Tok {
        match self {
            Token::LeftBrace => Tok::LeftBrace,
            Token::RightBrace => Tok::RightBrace,
            Token::LeftBracket => Tok::LeftBracket,
            Token::RightBracket => Tok::RightBracket,
            Token::Colon => Tok::Colon,
            Token::Comma => Tok::Comma,
            Token::Null => Tok::Null,
            Token::Bool(b) => Tok::Bool(*b),
            Token::Number(t) => Tok::Number(t@),
            Token::String(s) => Tok::Str(s@),
        }
    }
}

/// The models of a sequence of tokens.
pub open spec fn tokens_model(v: Seq<Token>) -> Seq<Tok> {
    Seq::new(v.len(), |i: int| v[i].model())
}

/// `ts` in front of the tokens of `r`, or the error of `r`.
pub open spec fn prepend(ts: Seq<Tok>, r: Result<Seq<Tok>, ErrorModel>) -> Result<Seq<Tok>, ErrorModel> {
    match r {
        Ok(x) => Ok(ts + x),
        Err(e) => Err(e),
    }
}

// ---------------------------------------------------------------------------
// Messages

pub open spec fn msg_unexpected_char(c: char) -> Seq<char> {
    "unexpected character: '"@.push(c).push('\'')
}

pub open spec fn msg_invalid_escape(c: char) -> Seq<char> {
    "invalid escape character: '\\"@.push(c).push('\'')
}

pub open spec fn msg_control(c: char) -> Seq<char> {
    "control character U+00"@.push(hex_upper(c as int / 16)).push(hex_upper(c as int % 16))
        + " in string"@
}

pub open spec fn msg_invalid_hex(c: char) -> Seq<char> {
    "invalid hex digit: '"@.push(c).push('\'')
}

// ---------------------------------------------------------------------------
// Lexical structure, on the whole input `s` from a position

/// The first position at or after `p` that is not whitespace.
pub open spec fn skip_ws(s: Seq<char>, p: int) -> int
    decreases s.len() - p,
{
    if 0 <= p < s.len() && is_ws(s[p]) {
        skip_ws(s, p + 1)
    } else {
        p
    }
}

/// `kw` is written at position `p`.
pub open spec fn has_keyword(s: Seq<char>, p: int, kw: Seq<char>) -> bool {
    0 <= p && p + kw.len() <= s.len() && s.subrange(p, p + kw.len()) == kw
}

pub open spec fn read_bool(s: Seq<char>, p: int) -> Result<(Tok, int), ErrorModel> {
    if has_keyword(s, p, "true"@) {
        Ok((Tok::Bool(true), p + "true"@.len()))
    } else if has_keyword(s, p, "false"@) {
        Ok((Tok::Bool(false), p + "false"@.len()))
    } else {
        Err(err("invalid token"@, p))
    }
}

pub open spec fn read_null(s: Seq<char>, p: int) -> Result<(Tok, int), ErrorModel> {
    if has_keyword(s, p, "null"@) {
        Ok((Tok::Null, p + "null"@.len()))
    } else {
        Err(err("expected 'null'"@, p))
    }
}

/// The first position at or after `i` that is not a decimal digit.
pub open spec fn digits_end(s: Seq<char>, i: int) -> int
    decreases s.len() - i,
{
    if 0 <= i < s.len() && is_digit(s[i]) {
        digits_end(s, i + 1)
    } else {
        i
    }
}

/// One or more digits from `i`: the position after them.
pub open spec fn read_digits(s: Seq<char>, i: int) -> Result<int, ErrorModel> {
    let e = digits_end(s, i);
    if e == i {
        Err(err("expected digit"@, i))
    } else {
        Ok(e)
    }
}

/// The integer part of a number: `0`, not followed by a digit, or digits.
pub open spec fn read_int_part(s: Seq<char>, p: int) -> Result<int, ErrorModel> {
    if 0 <= p < s.len() && s[p] == '0' {
        if p + 1 < s.len() && is_digit(s[p + 1]) {
            Err(err("leading zeros not allowed"@, p + 1))
        } else {
            Ok(p + 1)
        }
    } else {
        read_digits(s, p)
    }
}

/// An optional fraction: `.` and digits.
pub open spec fn read_frac_part(s: Seq<char>, p: int) -> Result<int, ErrorModel> {
    if 0 <= p < s.len() && s[p] == '.' {
        read_digits(s, p + 1)
    } else {
        Ok(p)
    }
}

/// An optional exponent: `e` or `E`, an optional sign, and digits.
pub open spec fn read_exp_part(s: Seq<char>, p: int) -> Result<int, ErrorModel> {
    if 0 <= p < s.len() && (s[p] == 'e' || s[p] == 'E') {
        let q = p + 1;
        let q1 = if q < s.len() && (s[q] == '+' || s[q] == '-') {
            q + 1
        } else {
            q
        };
        read_digits(s, q1)
    } else {
        Ok(p)
    }
}

/// The end of the number that starts at `p`: optional `-`, integer part,
/// optional fraction, optional exponent.
pub open spec fn number_end(s: Seq<char>, p: int) -> Result<int, ErrorModel> {
    let p1 = if 0 <= p < s.len() && s[p] == '-' {
        p + 1
    } else {
        p
    };
    match read_int_part(s, p1) {
        Err(e) => Err(e),
        Ok(p2) => match read_frac_part(s, p2) {
            Err(e) => Err(e),
            Ok(p3) => read_exp_part(s, p3),
        },
    }
}

/// A number token: its text is the input from `p` to its end.
pub open spec fn read_number(s: Seq<char>, p: int) -> Result<(Tok, int), ErrorModel> {
    match number_end(s, p) {
        Ok(e) => Ok((Tok::Number(s.subrange(p, e)), e)),
        Err(x) => Err(x),
    }
}

/// A text that reads as one whole number: JSON's number grammar.
pub open spec fn is_number_text(t: Seq<char>) -> bool {
    number_end(t, 0) == Ok::<int, ErrorModel>(t.len() as int)
}

/// `n` hexadecimal digits from `i`, accumulated onto `acc`; errors name
/// `start` when the input ends.
pub open spec fn hex_run(s: Seq<char>, start: int, i: int, n: nat, acc: int) -> Result<
    int,
    ErrorModel,
>
    decreases n,
{
    if n == 0 {
        Ok(acc)
    } else if i < 0 || i >= s.len() {
        Err(err("unexpected end in unicode escape"@, start))
    } else if !is_hex(s[i]) {
        Err(err(msg_invalid_hex(s[i]), i))
    } else {
        hex_run(s, start, i + 1, (n - 1) as nat, acc * 16 + hex_val(s[i]))
    }
}

/// The four hexadecimal digits at `p`, as a number.
pub open spec fn read_hex4(s: Seq<char>, p: int) -> Result<int, ErrorModel> {
    hex_run(s, p, p, 4, 0)
}

/// A `\u` escape whose digits start at `p`: a code point, or a high
/// surrogate followed by `\u` and a low surrogate.
pub open spec fn unicode_escape(s: Seq<char>, p: int) -> Result<(char, int), ErrorModel> {
    match read_hex4(s, p) {
        Err(e) => Err(e),
        Ok(code) => {
            let p1 = p + 4;
            if 0xD800 <= code <= 0xDBFF {
                if p1 + 1 < s.len() && s[p1] == '\\' && s[p1 + 1] == 'u' {
                    let p2 = p1 + 2;
                    match read_hex4(s, p2) {
                        Err(e) => Err(e),
                        Ok(low) => {
                            let p3 = p2 + 4;
                            if !(0xDC00 <= low <= 0xDFFF) {
                                Err(err("invalid low surrogate range"@, p3))
                            } else {
                                Ok(
                                    (
                                        ((0x10000 + (code - 0xD800) * 1024 + (low - 0xDC00)) as u32) as char,
                                        p3,
                                    ),
                                )
                            }
                        },
                    }
                } else {
                    Err(err("missing low surrogate pair"@, p1))
                }
            } else if 0xDC00 <= code <= 0xDFFF {
                Err(err("invalid unicode code point"@, p))
            } else {
                Ok(((code as u32) as char, p1))
            }
        },
    }
}

/// The character denoted by a one-character escape `\e`.
pub open spec fn simple_escape(e: char) -> Option<char> {
    if e == '"' {
        Some('"')
    } else if e == '\\' {
        Some('\\')
    } else if e == '/' {
        Some('/')
    } else if e == 'b' {
        Some('\u{8}')
    } else if e == 'f' {
        Some('\u{c}')
    } else if e == 'n' {
        Some('\n')
    } else if e == 'r' {
        Some('\r')
    } else if e == 't' {
        Some('\t')
    } else {
        None
    }
}

pub proof fn lemma_hex_run(s: Seq<char>, start: int, i: int, n: nat, acc: int)
    requires
        0 <= acc,
    ensures
        hex_run(s, start, i, n, acc) matches Ok(v) ==> (n > 0 ==> i + n <= s.len()) && 0 <= v && v
            < (acc + 1) * pow16(n),
    decreases n,
{
    lemma_pow16_pos(n);
    if n > 0 && 0 <= i < s.len() && is_hex(s[i]) {
        let h = hex_val(s[i]);
        let q = pow16((n - 1) as nat);
        lemma_pow16_pos((n - 1) as nat);
        lemma_hex_run(s, start, i + 1, (n - 1) as nat, acc * 16 + h);
        assert((acc * 16 + h + 1) * q <= (acc + 1) * (16 * q)) by (nonlinear_arith)
            requires
                0 <= h < 16,
                q >= 0,
        ;
        assert(pow16(n) == 16 * q);
    }
}

/// `16` to the power `n`.
pub open spec fn pow16(n: nat) -> int
    decreases n,
{
    if n == 0 {
        1
    } else {
        16 * pow16((n - 1) as nat)
    }
}

pub proof fn lemma_pow16_pos(n: nat)
    ensures
        pow16(n) >= 1,
    decreases n,
{
    if n > 0 {
        lemma_pow16_pos((n - 1) as nat);
    }
}

pub proof fn lemma_read_hex4(s: Seq<char>, p: int)
    ensures
        read_hex4(s, p) matches Ok(v) ==> p + 4 <= s.len() && 0 <= v < 0x10000,
{
    lemma_hex_run(s, p, p, 4, 0);
    reveal_with_fuel(pow16, 5);
}

pub proof fn lemma_unicode_escape_advances(s: Seq<char>, p: int)
    ensures
        unicode_escape(s, p) matches Ok((c, j)) ==> p < j <= s.len(),
{
    lemma_read_hex4(s, p);
    lemma_read_hex4(s, p + 6);
}

/// The rest of a string literal from `i`, with the characters `acc` read so
/// far; `start` is the position of the opening quote.
pub open spec fn string_body(s: Seq<char>, i: int, acc: Seq<char>, start: int) -> Result<
    (Tok, int),
    ErrorModel,
>
    decreases s.len() - i,
{
    if i < 0 || i >= s.len() {
        Err(err("unterminated string"@, start))
    } else if s[i] == '"' {
        Ok((Tok::Str(acc), i + 1))
    } else if s[i] == '\\' {
        if i + 1 >= s.len() {
            Err(err("unterminated escape sequence"@, i + 1))
        } else {
            match simple_escape(s[i + 1]) {
                Some(c) => string_body(s, i + 2, acc.push(c), start),
                None => if s[i + 1] == 'u' {
                    match unicode_escape(s, i + 2) {
                        Err(x) => Err(x),
                        Ok((c, j)) => {
                            proof {
                                lemma_unicode_escape_advances(s, i + 2);
                            }
                            string_body(s, j, acc.push(c), start)
                        },
                    }
                } else {
                    Err(err(msg_invalid_escape(s[i + 1]), i + 1))
                },
            }
        }
    } else if is_control(s[i]) {
        Err(err(msg_control(s[i]), i))
    } else {
        string_body(s, i + 1, acc.push(s[i]), start)
    }
}

/// A string literal whose opening quote is at `p`.
pub open spec fn read_string(s: Seq<char>, p: int) -> Result<(Tok, int), ErrorModel> {
    string_body(s, p + 1, seq![], p)
}

/// The token that starts at `q`.
pub open spec fn read_token(s: Seq<char>, q: int) -> Result<(Tok, int), ErrorModel> {
    let c = s[q];
    if c == '{' {
        Ok((Tok::LeftBrace, q + 1))
    } else if c == '}' {
        Ok((Tok::RightBrace, q + 1))
    } else if c == '[' {
        Ok((Tok::LeftBracket, q + 1))
    } else if c == ']' {
        Ok((Tok::RightBracket, q + 1))
    } else if c == ':' {
        Ok((Tok::Colon, q + 1))
    } else if c == ',' {
        Ok((Tok::Comma, q + 1))
    } else if c == '"' {
        read_string(s, q)
    } else if c == 't' || c == 'f' {
        read_bool(s, q)
    } else if c == 'n' {
        read_null(s, q)
    } else if c == '-' || is_digit(c) {
        read_number(s, q)
    } else {
        Err(err(msg_unexpected_char(c), q))
    }
}

pub proof fn lemma_skip_ws(s: Seq<char>, p: int)
    requires
        0 <= p,
    ensures
        p <= skip_ws(s, p),
        p <= s.len() ==> skip_ws(s, p) <= s.len(),
        skip_ws(s, p) < s.len() ==> !is_ws(s[skip_ws(s, p)]),
        forall|j: int| p <= j < skip_ws(s, p) ==> is_ws(#[trigger] s[j]),
    decreases s.len() - p,
{
    if 0 <= p < s.len() && is_ws(s[p]) {
        lemma_skip_ws(s, p + 1);
    }
}

pub proof fn lemma_digits_end(s: Seq<char>, i: int)
    requires
        0 <= i,
    ensures
        i <= digits_end(s, i),
        i <= s.len() ==> digits_end(s, i) <= s.len(),
        digits_end(s, i) < s.len() ==> !is_digit(s[digits_end(s, i)]),
        forall|j: int| i <= j < digits_end(s, i) ==> is_digit(#[trigger] s[j]),
    decreases s.len() - i,
{
    if 0 <= i < s.len() && is_digit(s[i]) {
        lemma_digits_end(s, i + 1);
    }
}

pub proof fn lemma_number_end(s: Seq<char>, p: int)
    requires
        0 <= p <= s.len(),
    ensures
        number_end(s, p) matches Ok(e) ==> p < e <= s.len(),
{
    let p1 = if 0 <= p < s.len() && s[p] == '-' {
        p + 1
    } else {
        p
    };
    lemma_digits_end(s, p1);
    if let Ok(p2) = read_int_part(s, p1) {
        lemma_digits_end(s, p2 + 1);
        if let Ok(p3) = read_frac_part(s, p2) {
            lemma_digits_end(s, p3 + 1);
            lemma_digits_end(s, p3 + 2);
        }
    }
}

pub proof fn lemma_string_body_advances(s: Seq<char>, i: int, acc: Seq<char>, start: int)
    requires
        0 <= i,
    ensures
        string_body(s, i, acc, start) matches Ok((t, j)) ==> i < j <= s.len(),
    decreases s.len() - i,
{
    if 0 <= i < s.len() && s[i] != '"' {
        if s[i] == '\\' {
            if i + 1 < s.len() {
                match simple_escape(s[i + 1]) {
                    Some(c) => lemma_string_body_advances(s, i + 2, acc.push(c), start),
                    None => {
                        lemma_unicode_escape_advances(s, i + 2);
                        if let Ok((c, j)) = unicode_escape(s, i + 2) {
                            lemma_string_body_advances(s, j, acc.push(c), start);
                        }
                    },
                }
            }
        } else if !is_control(s[i]) {
            lemma_string_body_advances(s, i + 1, acc.push(s[i]), start);
        }
    }
}

pub proof fn lemma_read_token_advances(s: Seq<char>, q: int)
    requires
        0 <= q < s.len(),
    ensures
        read_token(s, q) matches Ok((t, q1)) ==> q < q1 <= s.len(),
{
    lemma_string_body_advances(s, q + 1, seq![], q);
    lemma_number_end(s, q);
    reveal_strlit("true");
    reveal_strlit("false");
    reveal_strlit("null");
}

/// The tokens of the input from position `p`, or the first error.
pub open spec fn lex_from(s: Seq<char>, p: int) -> Result<Seq<Tok>, ErrorModel>
    decreases s.len() - p,
{
    if p < 0 {
        Ok(seq![])
    } else {
        let q = skip_ws(s, p);
        if q >= s.len() {
            Ok(seq![])
        } else {
            match read_token(s, q) {
                Err(e) => Err(e),
                Ok((t, q1)) => {
                    proof {
                        lemma_skip_ws(s, p);
                        lemma_read_token_advances(s, q);
                    }
                    prepend(seq![t], lex_from(s, q1))
                },
            }
        }
    }
}

/// The tokens of the whole input, or the first error.
pub open spec fn lex(s: Seq<char>) -> Result<Seq<Tok>, ErrorModel> {
    lex_from(s, 0)
}

// ---------------------------------------------------------------------------
// Executable lexer

/// The outcome `res` of reading a token agrees with `spec`, and the lexer
/// then stands at `pos`.
pub open spec fn token_agrees(
    res: JsonResult<Token>,
    spec: Result<(Tok, int), ErrorModel>,
    pos: int,
) -> bool {
    match spec {
        Ok((t, e)) => res matches Ok(tok) && tok.model() == t && pos == e,
        Err(x) => res matches Err(er) && er.model() == x,
    }
}

pub struct Lexer {
    chars: Vec<char>,
    pos: usize,
}

fn simple_escape_char(e: char) -> (r: Option<char>)
    ensures
        r == simple_escape(e),
{
    if e == '"' {
        Some('"')
    } else if e == '\\' {
        Some('\\')
    } else if e == '/' {
        Some('/')
    } else if e == 'b' {
        Some('\u{8}')
    } else if e == 'f' {
        Some('\u{c}')
    } else if e == 'n' {
        Some('\n')
    } else if e == 'r' {
        Some('\r')
    } else if e == 't' {
        Some('\t')
    } else {
        None
    }
}

/// A character is determined by its code.
pub proof fn lemma_char_of_code(c: char, n: u32)
    requires
        c as u32 == n,
    ensures
        c == n as char,
{
}

proof fn lemma_range_concat(s: Seq<char>, a: int, b: int, c: int)
    requires
        0 <= a <= b <= c <= s.len(),
    ensures
        s.subrange(a, c) == s.subrange(a, b) + s.subrange(b, c),
{
    assert(s.subrange(a, c) =~= s.subrange(a, b) + s.subrange(b, c));
}

proof fn lemma_subrange_push(s: Seq<char>, a: int, b: int)
    requires
        0 <= a <= b < s.len(),
    ensures
        s.subrange(a, b + 1) == s.subrange(a, b).push(s[b]),
{
    assert(s.subrange(a, b + 1) =~= s.subrange(a, b).push(s[b]));
}

impl Lexer {
    #[verifier::type_invariant]
    spec fn inv(&self) -> bool {
        self.pos <= self.chars.len()
    }

    /// The characters being read.
    pub closed spec fn input(&self) -> Seq<char> {
        self.chars@
    }

    /// The position of the next character to read.
    pub closed spec fn position(&self) -> int {
        self.pos as int
    }

    pub fn new(input: &str) -> (l: Lexer)
        ensures
            l.input() == input@,
            l.position() == 0,
    {
        Lexer { chars: chars_of(input), pos: 0 }
    }

    /// All tokens of the input from the current position.
    pub fn tokenize(&mut self) -> (res: JsonResult<Vec<Token>>)
        ensures
            final(self).input() == old(self).input(),
            res is Ok ==> final(self).position() == final(self).input().len(),
            match lex_from(old(self).input(), old(self).position()) {
                Ok(ts) => res matches Ok(v) && tokens_model(v@) == ts,
                Err(x) => res matches Err(e) && e.model() == x,
            },
    {
        proof {
            use_type_invariant(&*self);
        }
        let ghost s = self.chars@;
        let ghost p0 = self.pos as int;
        let mut tokens: Vec<Token> = Vec::new();
        assert(tokens_model(tokens@) + lex_from(s, p0)->Ok_0 =~= lex_from(s, p0)->Ok_0);
        loop
            invariant
                self.chars@ == s,
                s == old(self).chars@,
                p0 == old(self).pos,
                self.pos <= s.len(),
                lex_from(s, p0) == prepend(tokens_model(tokens@), lex_from(s, self.pos as int)),
            decreases s.len() - self.pos,
        {
            let ghost before = self.pos as int;
            self.skip_whitespace();
            if self.pos >= self.chars.len() {
                proof {
                    use_type_invariant(&*self);
                }
                assert(tokens_model(tokens@) + Seq::<Tok>::empty() =~= tokens_model(tokens@));
                return Ok(tokens);
            }
            let token = match self.read_token() {
                Ok(t) => t,
                Err(e) => {
                    return Err(e);
                },
            };
            let ghost prev_tokens = tokens@;
            proof {
                lemma_skip_ws(s, before);
                lemma_read_token_advances(s, skip_ws(s, before));
                let rest = lex_from(s, self.pos as int);
                let old_toks = tokens_model(tokens@);
                if rest is Ok {
                    assert(old_toks + (seq![token.model()] + rest->Ok_0) =~= old_toks.push(
                        token.model(),
                    ) + rest->Ok_0);
                }
            }
            tokens.push(token);
            assert(tokens_model(tokens@) =~= tokens_model(prev_tokens).push(token.model()));
        }
    }

    /// The token at the current position, which is not at the end.
    fn read_token(&mut self) -> (res: JsonResult<Token>)
        requires
            old(self).position() < old(self).input().len(),
        ensures
            final(self).input() == old(self).input(),
            token_agrees(
                res,
                read_token(old(self).input(), old(self).position()),
                final(self).position(),
            ),
    {
        let len = self.chars.len();
        let ch = self.chars[self.pos];
        if ch == '{' {
            self.pos = self.pos + 1;
            Ok(Token::LeftBrace)
        } else if ch == '}' {
            self.pos = self.pos + 1;
            Ok(Token::RightBrace)
        } else if ch == '[' {
            self.pos = self.pos + 1;
            Ok(Token::LeftBracket)
        } else if ch == ']' {
            self.pos = self.pos + 1;
            Ok(Token::RightBracket)
        } else if ch == ':' {
            self.pos = self.pos + 1;
            Ok(Token::Colon)
        } else if ch == ',' {
            self.pos = self.pos + 1;
            Ok(Token::Comma)
        } else if ch == '"' {
            self.read_string()
        } else if ch == 't' || ch == 'f' {
            self.read_bool()
        } else if ch == 'n' {
            self.read_null()
        } else if ch == '-' || is_digit_char(ch) {
            self.read_number()
        } else {
            let mut m = String::from_str("unexpected character: '");
            m.push(ch);
            m.push('\'');
            Err(JsonError::new(m, self.pos))
        }
    }

    fn skip_whitespace(&mut self)
        ensures
            final(self).input() == old(self).input(),
            final(self).position() == skip_ws(old(self).input(), old(self).position()),
    {
        proof {
            use_type_invariant(&*self);
        }
        let ghost s = self.chars@;
        let ghost p0 = self.pos as int;
        while self.pos < self.chars.len() && is_whitespace_char(self.chars[self.pos])
            invariant
                self.chars@ == s,
                s == old(self).chars@,
                self.pos <= s.len(),
                skip_ws(s, p0) == skip_ws(s, self.pos as int),
            decreases s.len() - self.pos,
        {
            self.pos = self.pos + 1;
        }
    }

    fn peek(&self) -> (r: Option<char>)
        ensures
            r == (if self.position() < self.input().len() {
                Some(self.input()[self.position()])
            } else {
                None
            }),
    {
        if self.pos < self.chars.len() {
            Some(self.chars[self.pos])
        } else {
            None
        }
    }

    fn advance(&mut self) -> (r: Option<char>)
        requires
            old(self).position() < old(self).input().len(),
        ensures
            final(self).input() == old(self).input(),
            final(self).position() == old(self).position() + 1,
            r == Some(old(self).input()[old(self).position()]),
    {
        let len = self.chars.len();
        let ch = self.chars[self.pos];
        self.pos = self.pos + 1;
        Some(ch)
    }

    /// The string literal whose opening quote is at the current position.
    fn read_string(&mut self) -> (res: JsonResult<Token>)
        requires
            old(self).position() < old(self).input().len(),
        ensures
            final(self).input() == old(self).input(),
            token_agrees(
                res,
                read_string(old(self).input(), old(self).position()),
                final(self).position(),
            ),
    {
        proof {
            use_type_invariant(&*self);
        }
        let ghost s = self.chars@;
        let start = self.pos;
        self.pos = self.pos + 1;
        let mut out = String::new();
        loop
            invariant
                self.chars@ == s,
                s == old(self).chars@,
                start == old(self).pos,
                start < self.pos <= s.len(),
                read_string(s, start as int) == string_body(s, self.pos as int, out@, start as int),
            decreases s.len() - self.pos,
        {
            if self.pos >= self.chars.len() {
                return Err(JsonError::new(String::from_str("unterminated string"), start));
            }
            let ch = self.chars[self.pos];
            self.pos = self.pos + 1;
            if ch == '"' {
                return Ok(Token::String(out));
            } else if ch == '\\' {
                if self.pos >= self.chars.len() {
                    return Err(
                        JsonError::new(String::from_str("unterminated escape sequence"), self.pos),
                    );
                }
                let escaped = self.chars[self.pos];
                self.pos = self.pos + 1;
                match simple_escape_char(escaped) {
                    Some(c) => {
                        out.push(c);
                    },
                    None => {
                        if escaped == 'u' {
                            proof {
                                lemma_unicode_escape_advances(s, self.pos as int);
                            }
                            let c = match self.read_unicode_escape() {
                                Ok(c) => c,
                                Err(e) => {
                                    return Err(e);
                                },
                            };
                            out.push(c);
                        } else {
                            let mut m = String::from_str("invalid escape character: '\\");
                            m.push(escaped);
                            m.push('\'');
                            return Err(JsonError::new(m, self.pos - 1));
                        }
                    },
                }
            } else if is_control_char(ch) {
                let u = ch as u32;
                let mut m = String::from_str("control character U+00");
                m.push(hex_upper_char(u / 16));
                m.push(hex_upper_char(u % 16));
                m.append(" in string");
                proof {
                    lemma_char_code(ch);
                }
                return Err(JsonError::new(m, self.pos - 1));
            } else {
                out.push(ch);
            }
        }
    }

    /// A `\u` escape whose hexadecimal digits start at the current position.
    fn read_unicode_escape(&mut self) -> (res: JsonResult<char>)
        ensures
            final(self).input() == old(self).input(),
            match unicode_escape(old(self).input(), old(self).position()) {
                Ok((c, j)) => res == Ok::<char, JsonError>(c) && final(self).position() == j,
                Err(x) => res matches Err(er) && er.model() == x,
            },
    {
        proof {
            use_type_invariant(&*self);
        }
        let ghost s = self.chars@;
        let start = self.pos;
        proof {
            lemma_read_hex4(s, start as int);
        }
        let code = match self.read_hex_digits(4) {
            Ok(v) => v,
            Err(e) => {
                return Err(e);
            },
        };
        if 0xD800 <= code && code <= 0xDBFF {
            if self.chars.len() - self.pos > 1 && self.chars[self.pos] == '\\' && self.chars[self.pos
                + 1] == 'u' {
                self.pos = self.pos + 2;
                proof {
                    lemma_read_hex4(s, self.pos as int);
                }
                let low = match self.read_hex_digits(4) {
                    Ok(v) => v,
                    Err(e) => {
                        return Err(e);
                    },
                };
                if !(0xDC00 <= low && low <= 0xDFFF) {
                    return Err(
                        JsonError::new(String::from_str("invalid low surrogate range"), self.pos),
                    );
                }
                let full = 0x10000 + (code - 0xD800) * 1024 + (low - 0xDC00);
                match char::from_u32(full) {
                    Some(c) => {
                        proof {
                            lemma_char_of_code(c, full);
                        }
                        Ok(c)
                    },
                    None => Err(JsonError::new(String::from_str("invalid unicode code point"), start)),
                }
            } else {
                Err(JsonError::new(String::from_str("missing low surrogate pair"), self.pos))
            }
        } else {
            match char::from_u32(code) {
                Some(c) => {
                    proof {
                        lemma_char_of_code(c, code);
                    }
                    Ok(c)
                },
                None => Err(JsonError::new(String::from_str("invalid unicode code point"), start)),
            }
        }
    }

    /// `count` hexadecimal digits from the current position, as a number.
    fn read_hex_digits(&mut self, count: usize) -> (res: JsonResult<u32>)
        requires
            count <= 4,
        ensures
            final(self).input() == old(self).input(),
            match hex_run(
                old(self).input(),
                old(self).position(),
                old(self).position(),
                count as nat,
                0,
            ) {
                Ok(v) => res == Ok::<u32, JsonError>(v as u32) && final(self).position()
                    == old(self).position() + count,
                Err(x) => res matches Err(er) && er.model() == x,
            },
    {
        proof {
            use_type_invariant(&*self);
        }
        let ghost s = self.chars@;
        let start = self.pos;
        let mut value: u32 = 0;
        let mut k: usize = 0;
        proof {
            lemma_hex_run(s, start as int, start as int, count as nat, 0);
        }
        while k < count
            invariant
                self.chars@ == s,
                s == old(self).chars@,
                start == old(self).pos,
                k <= count <= 4,
                self.pos == start + k,
                self.pos <= s.len(),
                value < pow16(k as nat),
                hex_run(s, start as int, start as int, count as nat, 0) == hex_run(
                    s,
                    start as int,
                    self.pos as int,
                    (count - k) as nat,
                    value as int,
                ),
            decreases count - k,
        {
            if self.pos >= self.chars.len() {
                return Err(
                    JsonError::new(String::from_str("unexpected end in unicode escape"), start),
                );
            }
            let ch = self.chars[self.pos];
            let d = match hex_digit_value(ch) {
                Some(d) => d,
                None => {
                    let mut m = String::from_str("invalid hex digit: '");
                    m.push(ch);
                    m.push('\'');
                    return Err(JsonError::new(m, self.pos));
                },
            };
            proof {
                reveal_with_fuel(pow16, 5);
                assert(pow16(k as nat) <= 4096);
            }
            value = value * 16 + d;
            self.pos = self.pos + 1;
            k = k + 1;
        }
        Ok(value)
    }

    /// The number that starts at the current position.
    fn read_number(&mut self) -> (res: JsonResult<Token>)
        ensures
            final(self).input() == old(self).input(),
            token_agrees(
                res,
                read_number(old(self).input(), old(self).position()),
                final(self).position(),
            ),
    {
        proof {
            use_type_invariant(&*self);
        }
        let ghost s = self.chars@;
        let start = self.pos;
        let mut num_str = String::new();
        assert(num_str@ =~= s.subrange(start as int, start as int));
        if self.peek() == Some('-') {
            num_str.push('-');
            proof {
                lemma_subrange_push(s, start as int, self.pos as int);
            }
            self.pos = self.pos + 1;
        }
        let ghost p1 = self.pos as int;
        match self.read_int_part_into(&mut num_str) {
            Ok(()) => {},
            Err(e) => {
                return Err(e);
            },
        }
        let ghost p2 = self.pos as int;
        proof {
            use_type_invariant(&*self);
            lemma_range_concat(s, start as int, p1, p2);
        }
        match self.read_frac_part_into(&mut num_str) {
            Ok(()) => {},
            Err(e) => {
                return Err(e);
            },
        }
        let ghost p3 = self.pos as int;
        proof {
            use_type_invariant(&*self);
            lemma_range_concat(s, start as int, p2, p3);
        }
        match self.read_exp_part_into(&mut num_str) {
            Ok(()) => {},
            Err(e) => {
                return Err(e);
            },
        }
        proof {
            use_type_invariant(&*self);
            lemma_range_concat(s, start as int, p3, self.pos as int);
        }
        Ok(Token::Number(num_str))
    }

    /// The integer part of a number, appended to `buf`.
    fn read_int_part_into(&mut self, buf: &mut String) -> (res: JsonResult<()>)
        ensures
            final(self).input() == old(self).input(),
            match read_int_part(old(self).input(), old(self).position()) {
                Ok(e) => res is Ok && final(self).position() == e && old(self).position() <= e
                    && final(buf)@ == old(buf)@ + old(self).input().subrange(
                    old(self).position(),
                    e,
                ),
                Err(x) => res matches Err(er) && er.model() == x,
            },
    {
        proof {
            use_type_invariant(&*self);
        }
        let ghost s = self.chars@;
        let start = self.pos;
        if self.peek() == Some('0') {
            buf.push('0');
            self.pos = self.pos + 1;
            assert(s.subrange(start as int, self.pos as int) =~= seq!['0']);
            if self.pos < self.chars.len() && is_digit_char(self.chars[self.pos]) {
                return Err(JsonError::new(String::from_str("leading zeros not allowed"), self.pos));
            }
            Ok(())
        } else {
            proof {
                lemma_digits_end(s, self.pos as int);
            }
            self.read_digits_into(buf)
        }
    }

    /// The optional fraction of a number, appended to `buf`.
    fn read_frac_part_into(&mut self, buf: &mut String) -> (res: JsonResult<()>)
        ensures
            final(self).input() == old(self).input(),
            match read_frac_part(old(self).input(), old(self).position()) {
                Ok(e) => res is Ok && final(self).position() == e && old(self).position() <= e
                    && final(buf)@ == old(buf)@ + old(self).input().subrange(
                    old(self).position(),
                    e,
                ),
                Err(x) => res matches Err(er) && er.model() == x,
            },
    {
        proof {
            use_type_invariant(&*self);
        }
        let ghost s = self.chars@;
        let ghost b0 = buf@;
        let start = self.pos;
        if self.peek() == Some('.') {
            buf.push('.');
            self.pos = self.pos + 1;
            proof {
                lemma_digits_end(s, self.pos as int);
            }
            let r = self.read_digits_into(buf);
            proof {
                if r is Ok {
                    assert(s.subrange(start as int, self.pos as int) =~= seq!['.'] + s.subrange(
                        start + 1,
                        self.pos as int,
                    ));
                    assert(buf@ =~= b0 + s.subrange(start as int, self.pos as int));
                }
            }
            r
        } else {
            assert(s.subrange(start as int, start as int) =~= Seq::<char>::empty());
            assert(buf@ =~= b0 + s.subrange(start as int, start as int));
            Ok(())
        }
    }

    /// The optional exponent of a number, appended to `buf`.
    fn read_exp_part_into(&mut self, buf: &mut String) -> (res: JsonResult<()>)
        ensures
            final(self).input() == old(self).input(),
            match read_exp_part(old(self).input(), old(self).position()) {
                Ok(e) => res is Ok && final(self).position() == e && old(self).position() <= e
                    && final(buf)@ == old(buf)@ + old(self).input().subrange(
                    old(self).position(),
                    e,
                ),
                Err(x) => res matches Err(er) && er.model() == x,
            },
    {
        proof {
            use_type_invariant(&*self);
        }
        let ghost s = self.chars@;
        let ghost b0 = buf@;
        let start = self.pos;
        if self.pos < self.chars.len() && (self.chars[self.pos] == 'e' || self.chars[self.pos]
            == 'E') {
            buf.push(self.chars[self.pos]);
            self.pos = self.pos + 1;
            if self.pos < self.chars.len() && (self.chars[self.pos] == '+' || self.chars[self.pos]
                == '-') {
                buf.push(self.chars[self.pos]);
                self.pos = self.pos + 1;
            }
            let ghost q1 = self.pos as int;
            assert(buf@ =~= b0 + s.subrange(start as int, q1));
            proof {
                lemma_digits_end(s, self.pos as int);
            }
            let r = self.read_digits_into(buf);
            proof {
                if r is Ok {
                    lemma_range_concat(s, start as int, q1, self.pos as int);
                }
            }
            r
        } else {
            assert(s.subrange(start as int, start as int) =~= Seq::<char>::empty());
            assert(buf@ =~= b0 + s.subrange(start as int, start as int));
            Ok(())
        }
    }

    /// One or more digits from the current position, appended to `buf`.
    fn read_digits_into(&mut self, buf: &mut String) -> (res: JsonResult<()>)
        ensures
            final(self).input() == old(self).input(),
            match read_digits(old(self).input(), old(self).position()) {
                Ok(e) => res is Ok && final(self).position() == e && final(buf)@ == old(buf)@
                    + old(self).input().subrange(old(self).position(), e),
                Err(x) => res matches Err(er) && er.model() == x,
            },
    {
        proof {
            use_type_invariant(&*self);
        }
        let ghost s = self.chars@;
        let start = self.pos;
        assert(s.subrange(start as int, start as int) =~= Seq::<char>::empty());
        while self.pos < self.chars.len() && is_digit_char(self.chars[self.pos])
            invariant
                self.chars@ == s,
                s == old(self).chars@,
                start == old(self).pos,
                start <= self.pos <= s.len(),
                buf@ == old(buf)@ + s.subrange(start as int, self.pos as int),
                digits_end(s, start as int) == digits_end(s, self.pos as int),
            decreases s.len() - self.pos,
        {
            buf.push(self.chars[self.pos]);
            proof {
                lemma_subrange_push(s, start as int, self.pos as int);
            }
            self.pos = self.pos + 1;
        }
        if self.pos == start {
            return Err(JsonError::new(String::from_str("expected digit"), start));
        }
        Ok(())
    }

    fn read_bool(&mut self) -> (res: JsonResult<Token>)
        ensures
            final(self).input() == old(self).input(),
            token_agrees(
                res,
                read_bool(old(self).input(), old(self).position()),
                final(self).position(),
            ),
    {
        if self.match_keyword("true") {
            Ok(Token::Bool(true))
        } else if self.match_keyword("false") {
            Ok(Token::Bool(false))
        } else {
            Err(JsonError::new(String::from_str("invalid token"), self.pos))
        }
    }

    fn read_null(&mut self) -> (res: JsonResult<Token>)
        ensures
            final(self).input() == old(self).input(),
            token_agrees(
                res,
                read_null(old(self).input(), old(self).position()),
                final(self).position(),
            ),
    {
        if self.match_keyword("null") {
            Ok(Token::Null)
        } else {
            Err(JsonError::new(String::from_str("expected 'null'"), self.pos))
        }
    }

    /// Whether `keyword` is written at the current position; if so, the
    /// lexer moves past it.
    fn match_keyword(&mut self, keyword: &str) -> (r: bool)
        ensures
            final(self).input() == old(self).input(),
            r == has_keyword(old(self).input(), old(self).position(), keyword@),
            r ==> final(self).position() == old(self).position() + keyword@.len(),
            !r ==> final(self).position() == old(self).position(),
    {
        proof {
            use_type_invariant(&*self);
        }
        let ghost s = self.chars@;
        let kw = chars_of(keyword);
        let n = kw.len();
        let len = self.chars.len();
        if n > len - self.pos {
            return false;
        }
        let mut i: usize = 0;
        while i < n
            invariant
                self.chars@ == s,
                s == old(self).chars@,
                kw@ == keyword@,
                n == kw.len(),
                self.pos + n <= len,
                len == s.len(),
                i <= n,
                forall|j: int| 0 <= j < i ==> s[self.pos + j] == #[trigger] kw@[j],
            decreases n - i,
        {
            if self.chars[self.pos + i] != kw[i] {
                assert(s.subrange(self.pos as int, self.pos + n)[i as int] != kw@[i as int]);
                return false;
            }
            i = i + 1;
        }
        assert(s.subrange(self.pos as int, self.pos + n) =~= kw@);
        self.pos = self.pos + n;
        true
    }
}

} // verus!
