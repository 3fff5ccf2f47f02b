//! Reading back what the writers write: the text of a well-formed value
//! parses to the same value.

use vstd::prelude::*;
use crate::error::{ErrorModel, err};
use crate::parser::{array_items, expect_tok, object_members, parse_array_at, parse_object_at, parse_tokens, parse_tokens_from, parse_value_at};
use crate::lexer::{
    Tok,
    lex,
    digits_end,
    hex_run,
    is_number_text,
    lemma_char_of_code,
    lex_from,
    number_end,
    prepend,
    read_digits,
    read_exp_part,
    read_frac_part,
    read_hex4,
    read_int_part,
    read_number,
    read_string,
    read_token,
    simple_escape,
    skip_ws,
    string_body,
    unicode_escape,
};
use crate::serializer::{compact_elems, compact_members, compact_text, escape, escape_char, pretty_elems, pretty_members, pretty_text, quoted, spaces};
use crate::text::{hex_lower, hex_val, is_control, is_digit, is_hex, is_ws, lemma_char_code};
use crate::value::{JValue, insert_all, keys_sorted, key_lt, lemma_obj_insert_last, lemma_obj_insert_sorted, obj_insert};

verus! {

/// Every number is a whole JSON number literal, and every object has each
/// key once, in key order.
pub open spec fn well_formed(v: JValue) -> bool
    decreases v,
{
    match v {
        JValue::Number(t) => is_number_text(t),
        JValue::Array(a) => elems_wf(a),
        JValue::Object(m) => keys_sorted(m) && members_wf(m),
        _ => true,
    }
}

/// Every element is well formed.
pub open spec fn elems_wf(a: Seq<JValue>) -> bool
    decreases a,
{
    a.len() == 0 || (elems_wf(a.drop_last()) && well_formed(a.last()))
}

/// Every member's value is well formed.
pub open spec fn members_wf(m: Seq<(Seq<char>, JValue)>) -> bool
    decreases m,
{
    m.len() == 0 || (members_wf(m.drop_last()) && well_formed(m.last().1))
}

pub proof fn lemma_elems_wf(a: Seq<JValue>)
    ensures
        elems_wf(a) <==> forall|i: int| 0 <= i < a.len() ==> #[trigger] well_formed(a[i]),
    decreases a.len(),
{
    if a.len() > 0 {
        lemma_elems_wf(a.drop_last());
        if elems_wf(a) {
            assert forall|i: int| 0 <= i < a.len() implies #[trigger] well_formed(a[i]) by {
                if i < a.len() - 1 {
                    assert(a.drop_last()[i] == a[i]);
                }
            }
        }
        if forall|i: int| 0 <= i < a.len() ==> #[trigger] well_formed(a[i]) {
            assert forall|i: int| 0 <= i < a.drop_last().len() implies #[trigger] well_formed(
                a.drop_last()[i],
            ) by {
                assert(a.drop_last()[i] == a[i]);
            }
            assert(well_formed(a[a.len() - 1]));
        }
    }
}

pub proof fn lemma_members_wf(m: Seq<(Seq<char>, JValue)>)
    ensures
        members_wf(m) <==> forall|i: int| 0 <= i < m.len() ==> #[trigger] well_formed(m[i].1),
    decreases m.len(),
{
    if m.len() > 0 {
        lemma_members_wf(m.drop_last());
        if members_wf(m) {
            assert forall|i: int| 0 <= i < m.len() implies #[trigger] well_formed(m[i].1) by {
                if i < m.len() - 1 {
                    assert(m.drop_last()[i] == m[i]);
                }
            }
        }
        if forall|i: int| 0 <= i < m.len() ==> #[trigger] well_formed(m[i].1) {
            assert forall|i: int| 0 <= i < m.drop_last().len() implies #[trigger] well_formed(
                m.drop_last()[i].1,
            ) by {
                assert(m.drop_last()[i] == m[i]);
            }
            assert(well_formed(m[m.len() - 1].1));
        }
    }
}

/// The tokens of a value.
pub open spec fn value_tokens(v: JValue) -> Seq<Tok>
    decreases v,
{
    match v {
        JValue::Null => seq![Tok::Null],
        JValue::Bool(b) => seq![Tok::Bool(b)],
        JValue::Number(t) => seq![Tok::Number(t)],
        JValue::Str(s) => seq![Tok::Str(s)],
        JValue::Array(a) => seq![Tok::LeftBracket] + elems_tokens(a) + seq![Tok::RightBracket],
        JValue::Object(m) => seq![Tok::LeftBrace] + members_tokens(m) + seq![Tok::RightBrace],
    }
}

/// The tokens of array elements, separated by commas.
pub open spec fn elems_tokens(a: Seq<JValue>) -> Seq<Tok>
    decreases a,
{
    if a.len() == 0 {
        seq![]
    } else {
        elems_tokens(a.drop_last()) + (if a.len() > 1 {
            seq![Tok::Comma]
        } else {
            seq![]
        }) + value_tokens(a.last())
    }
}

/// The tokens of object members, separated by commas.
pub open spec fn members_tokens(m: Seq<(Seq<char>, JValue)>) -> Seq<Tok>
    decreases m,
{
    if m.len() == 0 {
        seq![]
    } else {
        members_tokens(m.drop_last()) + (if m.len() > 1 {
            seq![Tok::Comma]
        } else {
            seq![]
        }) + seq![Tok::Str(m.last().0), Tok::Colon] + value_tokens(m.last().1)
    }
}

/// Position `q` ends a token: the input ends, or whitespace or a closing
/// delimiter follows.
pub open spec fn ends_token(s: Seq<char>, q: int) -> bool {
    q == s.len() || (0 <= q < s.len() && (is_ws(s[q]) || s[q] == ',' || s[q] == ']' || s[q]
        == '}'))
}

/// `w` is written in `s` at position `p`.
pub open spec fn written_at<A>(s: Seq<A>, p: int, w: Seq<A>) -> bool {
    0 <= p && p + w.len() <= s.len() && s.subrange(p, p + w.len()) == w
}

// ---------------------------------------------------------------------------
// Small facts

pub(crate) proof fn lemma_written_index<A>(s: Seq<A>, p: int, w: Seq<A>, j: int)
    requires
        written_at(s, p, w),
        0 <= j < w.len(),
    ensures
        s[p + j] == w[j],
{
    assert(s.subrange(p, p + w.len())[j] == s[p + j]);
}

pub(crate) proof fn lemma_written_split<A>(s: Seq<A>, p: int, a: Seq<A>, b: Seq<A>)
    requires
        written_at(s, p, a + b),
    ensures
        written_at(s, p, a),
        written_at(s, p + a.len(), b),
{
    assert forall|j: int| 0 <= j < a.len() implies #[trigger] s.subrange(p, p + a.len())[j]
        == a[j] by {
        lemma_written_index(s, p, a + b, j);
    }
    assert(s.subrange(p, p + a.len()) =~= a);
    assert forall|j: int| 0 <= j < b.len() implies #[trigger] s.subrange(
        p + a.len(),
        p + a.len() + b.len(),
    )[j] == b[j] by {
        lemma_written_index(s, p, a + b, a.len() + j);
    }
    assert(s.subrange(p + a.len(), p + a.len() + b.len()) =~= b);
}

pub proof fn lemma_prepend_empty(r: Result<Seq<Tok>, ErrorModel>)
    ensures
        prepend(seq![], r) == r,
{
    if let Ok(x) = r {
        assert(Seq::<Tok>::empty() + x =~= x);
    }
}

pub proof fn lemma_prepend_prepend(a: Seq<Tok>, b: Seq<Tok>, r: Result<Seq<Tok>, ErrorModel>)
    ensures
        prepend(a, prepend(b, r)) == prepend(a + b, r),
{
    if let Ok(x) = r {
        assert(a + (b + x) =~= (a + b) + x);
    }
}

/// Whitespace between `p` and `q` does not change what is read.
proof fn lemma_lex_skip(s: Seq<char>, p: int, q: int)
    requires
        0 <= p <= q <= s.len(),
        forall|j: int| p <= j < q ==> is_ws(#[trigger] s[j]),
    ensures
        lex_from(s, p) == lex_from(s, q),
    decreases q - p,
{
    if p < q {
        lemma_lex_skip(s, p + 1, q);
        assert(skip_ws(s, p) == skip_ws(s, p + 1));
    }
}

/// A one-character token at `p`.
proof fn lemma_lex_single(s: Seq<char>, p: int, t: Tok)
    requires
        0 <= p < s.len(),
        (s[p] == '[' && t == Tok::LeftBracket) || (s[p] == ']' && t == Tok::RightBracket) || (s[p]
            == '{' && t == Tok::LeftBrace) || (s[p] == '}' && t == Tok::RightBrace) || (s[p] == ','
            && t == Tok::Comma) || (s[p] == ':' && t == Tok::Colon),
    ensures
        lex_from(s, p) == prepend(seq![t], lex_from(s, p + 1)),
{
    assert(skip_ws(s, p) == p);
}

/// A token read at `p` (where there is no whitespace) comes first.
proof fn lemma_lex_token(s: Seq<char>, p: int, t: Tok, q: int)
    requires
        0 <= p < s.len(),
        !is_ws(s[p]),
        read_token(s, p) == Ok::<(Tok, int), ErrorModel>((t, q)),
    ensures
        lex_from(s, p) == prepend(seq![t], lex_from(s, q)),
{
    assert(skip_ws(s, p) == p);
}

// ---------------------------------------------------------------------------
// Strings

pub proof fn lemma_escape_concat(a: Seq<char>, b: Seq<char>)
    ensures
        escape(a + b) == escape(a) + escape(b),
    decreases b.len(),
{
    if b.len() == 0 {
        assert(a + b =~= a);
        assert(escape(a) + escape(b) =~= escape(a));
    } else {
        lemma_escape_concat(a, b.drop_last());
        assert((a + b).drop_last() =~= a + b.drop_last());
        assert((a + b).last() == b.last());
        assert(escape(a) + escape(b) =~= escape(a) + escape(b.drop_last()) + escape_char(b.last()));
    }
}

proof fn lemma_escape_first(c: char, y: Seq<char>)
    ensures
        escape(seq![c] + y) == escape_char(c) + escape(y),
{
    lemma_escape_concat(seq![c], y);
    assert(seq![c].drop_last() =~= Seq::<char>::empty());
    assert(seq![c].last() == c);
    assert(escape(Seq::<char>::empty()) =~= Seq::<char>::empty());
    assert(escape(seq![c]) =~= escape_char(c));
}

proof fn lemma_hex_lower(d: int)
    requires
        0 <= d < 16,
    ensures
        is_hex(hex_lower(d)),
        hex_val(hex_lower(d)) == d,
{
}

/// Reading back the escaped text of one character.
proof fn lemma_string_char(s: Seq<char>, i: int, c: char, acc: Seq<char>, start: int)
    requires
        written_at(s, i, escape_char(c)),
    ensures
        string_body(s, i, acc, start) == string_body(s, i + escape_char(c).len(), acc.push(c), start),
{
    let e = escape_char(c);
    lemma_written_index(s, i, e, 0);
    if e.len() > 1 {
        lemma_written_index(s, i, e, 1);
    }
    if c != '"' && c != '\\' && c != '\n' && c != '\r' && c != '\t' && c != '\u{8}' && c
        != '\u{c}' && is_control(c) {
        lemma_char_code(c);
        let d1 = c as int / 16;
        let d2 = c as int % 16;
        lemma_hex_lower(d1);
        lemma_hex_lower(d2);
        lemma_written_index(s, i, e, 2);
        lemma_written_index(s, i, e, 3);
        lemma_written_index(s, i, e, 4);
        lemma_written_index(s, i, e, 5);
        reveal_with_fuel(hex_run, 5);
        assert(read_hex4(s, i + 2) == Ok::<int, ErrorModel>(c as int));
        lemma_char_of_code(c, c as u32);
        assert(unicode_escape(s, i + 2) == Ok::<(char, int), ErrorModel>((c, i + 6)));
    }
}

/// Reading back the escaped text of `y` and the closing quote.
proof fn lemma_string_body(s: Seq<char>, i: int, y: Seq<char>, acc: Seq<char>, start: int)
    requires
        written_at(s, i, escape(y).push('"')),
    ensures
        string_body(s, i, acc, start) == Ok::<(Tok, int), ErrorModel>(
            (Tok::Str(acc + y), i + escape(y).len() + 1),
        ),
    decreases y.len(),
{
    if y.len() == 0 {
        assert(escape(y).push('"') =~= seq!['"']);
        lemma_written_index(s, i, escape(y).push('"'), 0);
        assert(acc + y =~= acc);
    } else {
        let c = y[0];
        let y2 = y.drop_first();
        assert(y =~= seq![c] + y2);
        lemma_escape_first(c, y2);
        assert(escape(y).push('"') =~= escape_char(c) + escape(y2).push('"'));
        lemma_written_split(s, i, escape_char(c), escape(y2).push('"'));
        lemma_string_char(s, i, c, acc, start);
        lemma_string_body(s, i + escape_char(c).len(), y2, acc.push(c), start);
        assert(acc.push(c) + y2 =~= acc + y);
    }
}

/// Reading back a string literal.
pub proof fn lemma_read_quoted(s: Seq<char>, p: int, x: Seq<char>)
    requires
        written_at(s, p, quoted(x)),
    ensures
        read_string(s, p) == Ok::<(Tok, int), ErrorModel>((Tok::Str(x), p + quoted(x).len())),
        s[p] == '"',
{
    assert(quoted(x) =~= seq!['"'] + escape(x).push('"'));
    lemma_written_split(s, p, seq!['"'], escape(x).push('"'));
    lemma_written_index(s, p, quoted(x), 0);
    lemma_string_body(s, p + 1, x, seq![], p);
    assert(Seq::<char>::empty() + x =~= x);
}


// ---------------------------------------------------------------------------
// Numbers: reading a number looks only at its own characters and the one after

/// A character that can continue a number.
pub open spec fn is_number_char(c: char) -> bool {
    is_digit(c) || c == '.' || c == 'e' || c == 'E' || c == '+' || c == '-'
}

/// `t` is written at `p`, and what follows cannot continue a number.
pub open spec fn number_window(s: Seq<char>, p: int, t: Seq<char>) -> bool {
    written_at(s, p, t) && (p + t.len() == s.len() || !is_number_char(s[p + t.len()]))
}

/// A position result moved by `p`.
pub open spec fn shifted(r: Result<int, ErrorModel>, p: int) -> Result<int, ErrorModel> {
    match r {
        Ok(e) => Ok(e + p),
        Err(x) => Err(err(x.msg, x.pos + p)),
    }
}

proof fn lemma_window_char(s: Seq<char>, p: int, t: Seq<char>, x: int)
    requires
        number_window(s, p, t),
        0 <= x <= t.len(),
    ensures
        x < t.len() ==> s[p + x] == t[x],
        x == t.len() ==> (p + x == s.len() || !is_number_char(s[p + x])),
        p + x <= s.len(),
{
    if x < t.len() {
        lemma_written_index(s, p, t, x);
    }
}

proof fn lemma_digits_end_window(s: Seq<char>, p: int, t: Seq<char>, x: int)
    requires
        number_window(s, p, t),
        0 <= x <= t.len(),
    ensures
        digits_end(s, p + x) == p + digits_end(t, x),
    decreases t.len() - x,
{
    lemma_window_char(s, p, t, x);
    if x < t.len() && is_digit(t[x]) {
        lemma_digits_end_window(s, p, t, x + 1);
    }
}

proof fn lemma_read_digits_window(s: Seq<char>, p: int, t: Seq<char>, x: int)
    requires
        number_window(s, p, t),
        0 <= x <= t.len(),
    ensures
        read_digits(s, p + x) == shifted(read_digits(t, x), p),
        read_digits(t, x) matches Ok(e) ==> x < e <= t.len(),
{
    lemma_digits_end_window(s, p, t, x);
    crate::lexer::lemma_digits_end(t, x);
}

proof fn lemma_int_part_window(s: Seq<char>, p: int, t: Seq<char>, x: int)
    requires
        number_window(s, p, t),
        0 <= x <= t.len(),
    ensures
        read_int_part(s, p + x) == shifted(read_int_part(t, x), p),
        read_int_part(t, x) matches Ok(e) ==> x < e <= t.len(),
{
    lemma_window_char(s, p, t, x);
    lemma_read_digits_window(s, p, t, x);
    if x < t.len() {
        lemma_window_char(s, p, t, x + 1);
    }
}

proof fn lemma_frac_part_window(s: Seq<char>, p: int, t: Seq<char>, x: int)
    requires
        number_window(s, p, t),
        0 <= x <= t.len(),
    ensures
        read_frac_part(s, p + x) == shifted(read_frac_part(t, x), p),
        read_frac_part(t, x) matches Ok(e) ==> x <= e <= t.len(),
{
    lemma_window_char(s, p, t, x);
    if x < t.len() {
        lemma_read_digits_window(s, p, t, x + 1);
    }
}

proof fn lemma_exp_part_window(s: Seq<char>, p: int, t: Seq<char>, x: int)
    requires
        number_window(s, p, t),
        0 <= x <= t.len(),
    ensures
        read_exp_part(s, p + x) == shifted(read_exp_part(t, x), p),
        read_exp_part(t, x) matches Ok(e) ==> x <= e <= t.len(),
{
    lemma_window_char(s, p, t, x);
    if x < t.len() {
        lemma_window_char(s, p, t, x + 1);
        lemma_read_digits_window(s, p, t, x + 1);
        if x + 1 < t.len() {
            lemma_read_digits_window(s, p, t, x + 2);
        }
    }
}

proof fn lemma_number_end_window(s: Seq<char>, p: int, t: Seq<char>)
    requires
        number_window(s, p, t),
    ensures
        number_end(s, p) == shifted(number_end(t, 0), p),
{
    lemma_window_char(s, p, t, 0);
    let x1 = if 0 < t.len() && t[0] == '-' {
        1int
    } else {
        0
    };
    assert(p + x1 == if 0 <= p < s.len() && s[p] == '-' {
        p + 1
    } else {
        p
    });
    lemma_int_part_window(s, p, t, x1);
    if let Ok(x2) = read_int_part(t, x1) {
        lemma_frac_part_window(s, p, t, x2);
        if let Ok(x3) = read_frac_part(t, x2) {
            lemma_exp_part_window(s, p, t, x3);
        }
    }
}

/// A number literal starts with `-` or a digit.
proof fn lemma_number_text_first(t: Seq<char>)
    requires
        is_number_text(t),
    ensures
        t.len() > 0,
        t[0] == '-' || is_digit(t[0]),
{
}

/// Reading back a number literal followed by what cannot continue it.
pub proof fn lemma_read_number_window(s: Seq<char>, p: int, t: Seq<char>)
    requires
        is_number_text(t),
        number_window(s, p, t),
    ensures
        read_number(s, p) == Ok::<(Tok, int), ErrorModel>((Tok::Number(t), p + t.len())),
        s[p] == t[0],
        t[0] == '-' || is_digit(t[0]),
{
    lemma_number_text_first(t);
    lemma_number_end_window(s, p, t);
    lemma_window_char(s, p, t, 0);
}


// ---------------------------------------------------------------------------
// Lexing compact text

proof fn lemma_lex_keyword(s: Seq<char>, p: int, v: JValue)
    requires
        v is Null || v is Bool,
        written_at(s, p, compact_text(v)),
    ensures
        lex_from(s, p) == prepend(value_tokens(v), lex_from(s, p + compact_text(v).len())),
{
    reveal_strlit("null");
    reveal_strlit("true");
    reveal_strlit("false");
    lemma_written_index(s, p, compact_text(v), 0);
    let w = compact_text(v);
    if v == JValue::Bool(false) {
        assert(s.subrange(p, p + 4)[0] == s[p]);
        assert(s.subrange(p, p + 4) != "true"@);
    }
    assert(read_token(s, p) == Ok::<(Tok, int), ErrorModel>((value_tokens(v)[0], p + w.len())));
    lemma_lex_token(s, p, value_tokens(v)[0], p + w.len());
    assert(value_tokens(v) =~= seq![value_tokens(v)[0]]);
}

/// Splicing: an opening delimiter, what is read inside, a closing delimiter.
proof fn lemma_lex_enclosed(
    s: Seq<char>,
    p: int,
    inner: Seq<char>,
    toks: Seq<Tok>,
    open: char,
    close: char,
    open_t: Tok,
    close_t: Tok,
)
    requires
        written_at(s, p, seq![open] + inner + seq![close]),
        (open == '[' && open_t == Tok::LeftBracket && close == ']' && close_t == Tok::RightBracket)
            || (open == '{' && open_t == Tok::LeftBrace && close == '}' && close_t
            == Tok::RightBrace),
        lex_from(s, p + 1) == prepend(toks, lex_from(s, p + 1 + inner.len())),
    ensures
        lex_from(s, p) == prepend(
            seq![open_t] + toks + seq![close_t],
            lex_from(s, p + inner.len() + 2),
        ),
{
    let q = p + 1 + inner.len();
    lemma_written_split(s, p, seq![open] + inner, seq![close]);
    lemma_written_split(s, p, seq![open], inner);
    lemma_written_index(s, p, seq![open], 0);
    lemma_written_index(s, q, seq![close], 0);
    lemma_lex_single(s, p, open_t);
    lemma_lex_single(s, q, close_t);
    let rest = lex_from(s, q + 1);
    lemma_prepend_prepend(toks, seq![close_t], rest);
    lemma_prepend_prepend(seq![open_t], toks + seq![close_t], rest);
    assert(seq![open_t] + (toks + seq![close_t]) =~= seq![open_t] + toks + seq![close_t]);
}

/// Splicing: what is read before a comma, and after it.
proof fn lemma_lex_comma(
    s: Seq<char>,
    p: int,
    w1: Seq<char>,
    t1: Seq<Tok>,
    w2: Seq<char>,
    t2: Seq<Tok>,
)
    requires
        written_at(s, p, w1 + seq![','] + w2),
        lex_from(s, p) == prepend(t1, lex_from(s, p + w1.len())),
        lex_from(s, p + w1.len() + 1) == prepend(t2, lex_from(s, p + w1.len() + 1 + w2.len())),
    ensures
        lex_from(s, p) == prepend(t1 + seq![Tok::Comma] + t2, lex_from(s, p + w1.len() + 1 + w2.len())),
{
    lemma_written_split(s, p, w1 + seq![','], w2);
    lemma_written_split(s, p, w1, seq![',']);
    lemma_written_index(s, p + w1.len(), seq![','], 0);
    lemma_lex_single(s, p + w1.len(), Tok::Comma);
    let rest = lex_from(s, p + w1.len() + 1 + w2.len());
    lemma_prepend_prepend(seq![Tok::Comma], t2, rest);
    lemma_prepend_prepend(t1, seq![Tok::Comma] + t2, rest);
    assert(t1 + (seq![Tok::Comma] + t2) =~= t1 + seq![Tok::Comma] + t2);
}

/// Splicing: a key, a colon, and what is read after them.
proof fn lemma_lex_key(s: Seq<char>, p: int, k: Seq<char>, t: Seq<Tok>, end: int)
    requires
        written_at(s, p, quoted(k) + seq![':']),
        lex_from(s, p + quoted(k).len() + 1) == prepend(t, lex_from(s, end)),
    ensures
        lex_from(s, p) == prepend(seq![Tok::Str(k), Tok::Colon] + t, lex_from(s, end)),
{
    let pc = p + quoted(k).len();
    lemma_written_split(s, p, quoted(k), seq![':']);
    lemma_written_index(s, pc, seq![':'], 0);
    lemma_read_quoted(s, p, k);
    lemma_lex_token(s, p, Tok::Str(k), pc);
    lemma_lex_single(s, pc, Tok::Colon);
    let rest = lex_from(s, end);
    lemma_prepend_prepend(seq![Tok::Colon], t, rest);
    lemma_prepend_prepend(seq![Tok::Str(k)], seq![Tok::Colon] + t, rest);
    assert(seq![Tok::Str(k)] + (seq![Tok::Colon] + t) =~= seq![Tok::Str(k), Tok::Colon] + t);
}

/// The tokens read from the compact text of a value, when a token ends after it.
pub proof fn lemma_lex_value(s: Seq<char>, p: int, v: JValue)
    requires
        well_formed(v),
        written_at(s, p, compact_text(v)),
        ends_token(s, p + compact_text(v).len()),
    ensures
        lex_from(s, p) == prepend(value_tokens(v), lex_from(s, p + compact_text(v).len())),
    decreases v,
{
    let w = compact_text(v);
    match v {
        JValue::Null => lemma_lex_keyword(s, p, v),
        JValue::Bool(_) => lemma_lex_keyword(s, p, v),
        JValue::Number(t) => {
            lemma_read_number_window(s, p, t);
            lemma_lex_token(s, p, Tok::Number(t), p + t.len());
        },
        JValue::Str(x) => {
            lemma_read_quoted(s, p, x);
            lemma_lex_token(s, p, Tok::Str(x), p + w.len());
        },
        JValue::Array(a) => {
            let inner = compact_elems(a);
            lemma_written_split(s, p, seq!['['] + inner, seq![']']);
            lemma_written_split(s, p, seq!['['], inner);
            lemma_written_index(s, p + 1 + inner.len(), seq![']'], 0);
            if a.len() == 0 {
                lemma_prepend_empty(lex_from(s, p + 1));
                assert(elems_tokens(a) =~= Seq::<Tok>::empty());
            } else {
                lemma_lex_elems(s, p + 1, a);
            }
            lemma_lex_enclosed(s, p, inner, elems_tokens(a), '[', ']', Tok::LeftBracket, Tok::RightBracket);
        },
        JValue::Object(m) => {
            let inner = compact_members(m);
            lemma_written_split(s, p, seq!['{'] + inner, seq!['}']);
            lemma_written_split(s, p, seq!['{'], inner);
            lemma_written_index(s, p + 1 + inner.len(), seq!['}'], 0);
            if m.len() == 0 {
                lemma_prepend_empty(lex_from(s, p + 1));
                assert(members_tokens(m) =~= Seq::<Tok>::empty());
            } else {
                lemma_lex_members(s, p + 1, m);
            }
            lemma_lex_enclosed(s, p, inner, members_tokens(m), '{', '}', Tok::LeftBrace, Tok::RightBrace);
        },
    }
}

/// The tokens read from the compact text of array elements.
pub proof fn lemma_lex_elems(s: Seq<char>, p: int, a: Seq<JValue>)
    requires
        a.len() > 0,
        elems_wf(a),
        written_at(s, p, compact_elems(a)),
        ends_token(s, p + compact_elems(a).len()),
    ensures
        lex_from(s, p) == prepend(elems_tokens(a), lex_from(s, p + compact_elems(a).len())),
    decreases a,
{
    let a2 = a.drop_last();
    let last = a.last();
    let w = compact_elems(a);
    if a.len() == 1 {
        assert(compact_elems(a2) =~= Seq::<char>::empty());
        assert(elems_tokens(a2) =~= Seq::<Tok>::empty());
        assert(w =~= compact_text(last));
        assert(elems_tokens(a) =~= value_tokens(last));
        lemma_lex_value(s, p, last);
    } else {
        let w2 = compact_elems(a2);
        let wl = compact_text(last);
        assert(w =~= w2 + seq![','] + wl);
        lemma_written_split(s, p, w2 + seq![','], wl);
        lemma_written_split(s, p, w2, seq![',']);
        lemma_written_index(s, p + w2.len(), seq![','], 0);
        lemma_lex_elems(s, p, a2);
        lemma_lex_value(s, p + w2.len() + 1, last);
        lemma_lex_comma(s, p, w2, elems_tokens(a2), wl, value_tokens(last));
    }
}

/// The tokens read from the compact text of object members.
pub proof fn lemma_lex_members(s: Seq<char>, p: int, m: Seq<(Seq<char>, JValue)>)
    requires
        m.len() > 0,
        members_wf(m),
        written_at(s, p, compact_members(m)),
        ends_token(s, p + compact_members(m).len()),
    ensures
        lex_from(s, p) == prepend(members_tokens(m), lex_from(s, p + compact_members(m).len())),
    decreases m,
{
    let m2 = m.drop_last();
    let k = m.last().0;
    let v = m.last().1;
    let w = compact_members(m);
    let w2 = compact_members(m2);
    let kw = quoted(k) + seq![':'];
    let wv = compact_text(v);
    let member = kw + wv;
    let tm = seq![Tok::Str(k), Tok::Colon] + value_tokens(v);
    if m.len() == 1 {
        assert(w2 =~= Seq::<char>::empty());
        assert(members_tokens(m2) =~= Seq::<Tok>::empty());
        assert(w =~= member);
        assert(members_tokens(m) =~= tm);
        lemma_written_split(s, p, kw, wv);
        lemma_lex_value(s, p + kw.len(), v);
        lemma_lex_key(s, p, k, value_tokens(v), p + w.len());
    } else {
        assert(w =~= w2 + seq![','] + member);
        lemma_written_split(s, p, w2 + seq![','], member);
        lemma_written_split(s, p, w2, seq![',']);
        lemma_written_index(s, p + w2.len(), seq![','], 0);
        let pk = p + w2.len() + 1;
        lemma_written_split(s, pk, kw, wv);
        lemma_lex_value(s, pk + kw.len(), v);
        lemma_lex_key(s, pk, k, value_tokens(v), p + w.len());
        lemma_lex_members(s, p, m2);
        lemma_lex_comma(s, p, w2, members_tokens(m2), member, tm);
        assert(members_tokens(m) =~= members_tokens(m2) + seq![Tok::Comma] + tm);
    }
}


// ---------------------------------------------------------------------------
// Parsing the tokens of a value

pub proof fn lemma_value_tokens_nonempty(v: JValue)
    ensures
        value_tokens(v).len() >= 1,
{
}

/// The tokens of elements, read from the front.
proof fn lemma_elems_tokens_front(b: Seq<JValue>)
    requires
        b.len() > 0,
    ensures
        elems_tokens(b) == value_tokens(b[0]) + (if b.len() > 1 {
            seq![Tok::Comma] + elems_tokens(b.drop_first())
        } else {
            Seq::<Tok>::empty()
        }),
    decreases b.len(),
{
    if b.len() == 1 {
        assert(b.drop_last() =~= Seq::<JValue>::empty());
        assert(elems_tokens(b.drop_last()) =~= Seq::<Tok>::empty());
        assert(b.last() == b[0]);
        assert(elems_tokens(b) =~= value_tokens(b[0]) + Seq::<Tok>::empty());
    } else {
        let b2 = b.drop_last();
        lemma_elems_tokens_front(b2);
        assert(b2[0] == b[0]);
        assert(b.drop_first().drop_last() =~= b2.drop_first());
        assert(b.drop_first().last() == b.last());
        if b.len() == 2 {
            assert(b2.drop_first() =~= Seq::<JValue>::empty());
            assert(elems_tokens(b.drop_first()) =~= value_tokens(b.last())) by {
                assert(b.drop_first().drop_last() =~= Seq::<JValue>::empty());
                assert(elems_tokens(b.drop_first().drop_last()) =~= Seq::<Tok>::empty());
            }
            assert(elems_tokens(b) =~= value_tokens(b[0]) + (seq![Tok::Comma] + elems_tokens(
                b.drop_first(),
            )));
        } else {
            assert(elems_tokens(b) =~= value_tokens(b[0]) + (seq![Tok::Comma] + elems_tokens(
                b.drop_first(),
            )));
        }
    }
}

/// The tokens of members, read from the front.
proof fn lemma_members_tokens_front(b: Seq<(Seq<char>, JValue)>)
    requires
        b.len() > 0,
    ensures
        members_tokens(b) == seq![Tok::Str(b[0].0), Tok::Colon] + value_tokens(b[0].1) + (if b.len()
            > 1 {
            seq![Tok::Comma] + members_tokens(b.drop_first())
        } else {
            Seq::<Tok>::empty()
        }),
    decreases b.len(),
{
    let head = seq![Tok::Str(b[0].0), Tok::Colon] + value_tokens(b[0].1);
    if b.len() == 1 {
        assert(b.drop_last() =~= Seq::<(Seq<char>, JValue)>::empty());
        assert(members_tokens(b.drop_last()) =~= Seq::<Tok>::empty());
        assert(b.last() == b[0]);
        assert(members_tokens(b) =~= head + Seq::<Tok>::empty());
    } else {
        let b2 = b.drop_last();
        lemma_members_tokens_front(b2);
        assert(b2[0] == b[0]);
        assert(b.drop_first().drop_last() =~= b2.drop_first());
        assert(b.drop_first().last() == b.last());
        if b.len() == 2 {
            assert(b2.drop_first() =~= Seq::<(Seq<char>, JValue)>::empty());
            assert(b.drop_first().drop_last() =~= Seq::<(Seq<char>, JValue)>::empty());
            assert(members_tokens(b.drop_first().drop_last()) =~= Seq::<Tok>::empty());
            assert(members_tokens(b) =~= head + (seq![Tok::Comma] + members_tokens(
                b.drop_first(),
            )));
        } else {
            assert(members_tokens(b) =~= head + (seq![Tok::Comma] + members_tokens(
                b.drop_first(),
            )));
        }
    }
}

/// The tokens of a well-formed value parse back to it.
pub proof fn lemma_parse_value(t: Seq<Tok>, p: int, v: JValue)
    requires
        well_formed(v),
        written_at(t, p, value_tokens(v)),
    ensures
        parse_value_at(t, p) == Ok::<(JValue, int), ErrorModel>((v, p + value_tokens(v).len())),
    decreases v,
{
    let vt = value_tokens(v);
    lemma_written_index(t, p, vt, 0);
    match v {
        JValue::Array(a) => {
            let inner = elems_tokens(a);
            assert(vt =~= seq![Tok::LeftBracket] + (inner + seq![Tok::RightBracket]));
            lemma_written_split(t, p, seq![Tok::LeftBracket], inner + seq![Tok::RightBracket]);
            assert(expect_tok(t, p, Tok::LeftBracket) == Ok::<int, ErrorModel>(p + 1));
            if a.len() == 0 {
                assert(inner =~= Seq::<Tok>::empty());
                lemma_written_index(t, p + 1, inner + seq![Tok::RightBracket], 0);
                assert(a =~= Seq::<JValue>::empty());
            } else {
                lemma_elems_tokens_front(a);
                lemma_written_index(t, p + 1, inner + seq![Tok::RightBracket], 0);
                lemma_elems_wf(a);
                lemma_parse_items(t, p + 1, seq![], a);
                assert(Seq::<JValue>::empty() + a =~= a);
            }
        },
        JValue::Object(m) => {
            let inner = members_tokens(m);
            assert(vt =~= seq![Tok::LeftBrace] + (inner + seq![Tok::RightBrace]));
            lemma_written_split(t, p, seq![Tok::LeftBrace], inner + seq![Tok::RightBrace]);
            assert(expect_tok(t, p, Tok::LeftBrace) == Ok::<int, ErrorModel>(p + 1));
            if m.len() == 0 {
                assert(inner =~= Seq::<Tok>::empty());
                lemma_written_index(t, p + 1, inner + seq![Tok::RightBrace], 0);
                assert(m =~= Seq::<(Seq<char>, JValue)>::empty());
            } else {
                lemma_members_tokens_front(m);
                lemma_written_index(t, p + 1, inner + seq![Tok::RightBrace], 0);
                lemma_members_wf(m);
                assert(Seq::<(Seq<char>, JValue)>::empty() + m =~= m);
                lemma_parse_members(t, p + 1, seq![], m);
            }
        },
        _ => {},
    }
}

/// The remaining elements `b` of an array, then `]`, parse back to them.
proof fn lemma_parse_items(t: Seq<Tok>, q: int, acc: Seq<JValue>, b: Seq<JValue>)
    requires
        b.len() > 0,
        forall|i: int| 0 <= i < b.len() ==> #[trigger] well_formed(b[i]),
        written_at(t, q, elems_tokens(b) + seq![Tok::RightBracket]),
    ensures
        array_items(t, q, acc) == Ok::<(JValue, int), ErrorModel>(
            (JValue::Array(acc + b), q + elems_tokens(b).len() + 1),
        ),
    decreases b,
{
    lemma_elems_tokens_front(b);
    let v0 = b[0];
    let rest = if b.len() > 1 {
        seq![Tok::Comma] + elems_tokens(b.drop_first())
    } else {
        Seq::<Tok>::empty()
    };
    assert(elems_tokens(b) + seq![Tok::RightBracket] =~= value_tokens(v0) + (rest + seq![
        Tok::RightBracket,
    ]));
    lemma_written_split(t, q, value_tokens(v0), rest + seq![Tok::RightBracket]);
    assert(well_formed(b[0]));
    lemma_parse_value(t, q, v0);
    lemma_value_tokens_nonempty(v0);
    let q1 = q + value_tokens(v0).len();
    lemma_written_index(t, q1, rest + seq![Tok::RightBracket], 0);
    if b.len() > 1 {
        let b2 = b.drop_first();
        assert(rest + seq![Tok::RightBracket] =~= seq![Tok::Comma] + (elems_tokens(b2) + seq![
            Tok::RightBracket,
        ]));
        lemma_written_split(t, q1, seq![Tok::Comma], elems_tokens(b2) + seq![Tok::RightBracket]);
        assert forall|i: int| 0 <= i < b2.len() implies #[trigger] well_formed(b2[i]) by {
            assert(b2[i] == b[i + 1]);
            assert(well_formed(b[i + 1]));
        }
        lemma_parse_items(t, q1 + 1, acc.push(v0), b2);
        assert(acc.push(v0) + b2 =~= acc + b);
    } else {
        assert(acc.push(v0) =~= acc + b);
    }
}

/// The remaining members `b` of an object, then `}`, parse back to them when
/// all keys are in order.
proof fn lemma_parse_members(
    t: Seq<Tok>,
    q: int,
    acc: Seq<(Seq<char>, JValue)>,
    b: Seq<(Seq<char>, JValue)>,
)
    requires
        b.len() > 0,
        keys_sorted(acc + b),
        forall|i: int| 0 <= i < b.len() ==> #[trigger] well_formed(b[i].1),
        written_at(t, q, members_tokens(b) + seq![Tok::RightBrace]),
    ensures
        object_members(t, q, acc) == Ok::<(JValue, int), ErrorModel>(
            (JValue::Object(acc + b), q + members_tokens(b).len() + 1),
        ),
    decreases b,
{
    lemma_members_tokens_front(b);
    let k0 = b[0].0;
    let v0 = b[0].1;
    let rest = if b.len() > 1 {
        seq![Tok::Comma] + members_tokens(b.drop_first())
    } else {
        Seq::<Tok>::empty()
    };
    let head = seq![Tok::Str(k0), Tok::Colon];
    assert(members_tokens(b) + seq![Tok::RightBrace] =~= head + (value_tokens(v0) + (rest + seq![
        Tok::RightBrace,
    ])));
    lemma_written_split(t, q, head, value_tokens(v0) + (rest + seq![Tok::RightBrace]));
    lemma_written_index(t, q, head, 0);
    lemma_written_index(t, q, head, 1);
    lemma_written_split(t, q + 2, value_tokens(v0), rest + seq![Tok::RightBrace]);
    assert(well_formed(b[0].1));
    lemma_parse_value(t, q + 2, v0);
    lemma_value_tokens_nonempty(v0);
    let q3 = q + 2 + value_tokens(v0).len();
    lemma_written_index(t, q3, rest + seq![Tok::RightBrace], 0);
    assert forall|i: int| 0 <= i < acc.len() implies key_lt(#[trigger] acc[i].0, k0) by {
        assert((acc + b)[i] == acc[i]);
        assert((acc + b)[acc.len() as int] == b[0]);
    }
    lemma_obj_insert_last(acc, k0, v0);
    assert(obj_insert(acc, k0, v0) == acc.push(b[0]));
    if b.len() > 1 {
        let b2 = b.drop_first();
        assert(rest + seq![Tok::RightBrace] =~= seq![Tok::Comma] + (members_tokens(b2) + seq![
            Tok::RightBrace,
        ]));
        lemma_written_split(t, q3, seq![Tok::Comma], members_tokens(b2) + seq![Tok::RightBrace]);
        assert forall|i: int| 0 <= i < b2.len() implies #[trigger] well_formed(b2[i].1) by {
            assert(b2[i] == b[i + 1]);
            assert(well_formed(b[i + 1].1));
        }
        assert(acc.push(b[0]) + b2 =~= acc + b);
        lemma_parse_members(t, q3 + 1, acc.push(b[0]), b2);
    } else {
        assert(acc.push(b[0]) =~= acc + b);
    }
}

/// The remaining members `b` of an object, in any order, then `}`: each is
/// inserted in turn.
proof fn lemma_parse_members_any(
    t: Seq<Tok>,
    q: int,
    acc: Seq<(Seq<char>, JValue)>,
    b: Seq<(Seq<char>, JValue)>,
)
    requires
        b.len() > 0,
        forall|i: int| 0 <= i < b.len() ==> #[trigger] well_formed(b[i].1),
        written_at(t, q, members_tokens(b) + seq![Tok::RightBrace]),
    ensures
        object_members(t, q, acc) == Ok::<(JValue, int), ErrorModel>(
            (JValue::Object(insert_all(acc, b)), q + members_tokens(b).len() + 1),
        ),
    decreases b,
{
    lemma_members_tokens_front(b);
    let k0 = b[0].0;
    let v0 = b[0].1;
    let rest = if b.len() > 1 {
        seq![Tok::Comma] + members_tokens(b.drop_first())
    } else {
        Seq::<Tok>::empty()
    };
    let head = seq![Tok::Str(k0), Tok::Colon];
    assert(members_tokens(b) + seq![Tok::RightBrace] =~= head + (value_tokens(v0) + (rest + seq![
        Tok::RightBrace,
    ])));
    lemma_written_split(t, q, head, value_tokens(v0) + (rest + seq![Tok::RightBrace]));
    lemma_written_index(t, q, head, 0);
    lemma_written_index(t, q, head, 1);
    lemma_written_split(t, q + 2, value_tokens(v0), rest + seq![Tok::RightBrace]);
    assert(well_formed(b[0].1));
    lemma_parse_value(t, q + 2, v0);
    lemma_value_tokens_nonempty(v0);
    let q3 = q + 2 + value_tokens(v0).len();
    lemma_written_index(t, q3, rest + seq![Tok::RightBrace], 0);
    let acc2 = obj_insert(acc, k0, v0);
    assert(expect_tok(t, q + 1, Tok::Colon) == Ok::<int, ErrorModel>(q + 2));
    assert(insert_all(acc, b) == insert_all(acc2, b.drop_first()));
    if b.len() > 1 {
        let b2 = b.drop_first();
        assert(rest + seq![Tok::RightBrace] =~= seq![Tok::Comma] + (members_tokens(b2) + seq![
            Tok::RightBrace,
        ]));
        lemma_written_split(t, q3, seq![Tok::Comma], members_tokens(b2) + seq![Tok::RightBrace]);
        assert forall|i: int| 0 <= i < b2.len() implies #[trigger] well_formed(b2[i].1) by {
            assert(b2[i] == b[i + 1]);
            assert(well_formed(b[i + 1].1));
        }
        lemma_parse_members_any(t, q3 + 1, acc2, b2);
    } else {
        assert(b.drop_first().len() == 0);
        assert(insert_all(acc2, b.drop_first()) == acc2);
        assert(members_tokens(b).len() == 2 + value_tokens(v0).len());
    }
}

/// The tokens of an object whose members are in any order parse to the
/// members inserted in turn.
pub proof fn lemma_parse_object_tokens(m: Seq<(Seq<char>, JValue)>)
    requires
        forall|i: int| 0 <= i < m.len() ==> #[trigger] well_formed(m[i].1),
    ensures
        parse_tokens(value_tokens(JValue::Object(m))) == Ok::<JValue, ErrorModel>(
            JValue::Object(insert_all(seq![], m)),
        ),
{
    let t = value_tokens(JValue::Object(m));
    let inner = members_tokens(m);
    assert(t.subrange(0, t.len() as int) =~= t);
    assert(t =~= seq![Tok::LeftBrace] + (inner + seq![Tok::RightBrace]));
    lemma_written_split(t, 0, seq![Tok::LeftBrace], inner + seq![Tok::RightBrace]);
    assert(expect_tok(t, 0, Tok::LeftBrace) == Ok::<int, ErrorModel>(1));
    lemma_written_index(t, 1, inner + seq![Tok::RightBrace], 0);
    let r = JValue::Object(insert_all(seq![], m));
    if m.len() == 0 {
        assert(inner =~= Seq::<Tok>::empty());
        assert(m =~= Seq::<(Seq<char>, JValue)>::empty());
        assert(t[1] == Tok::RightBrace);
        assert(parse_object_at(t, 0) == Ok::<(JValue, int), ErrorModel>((r, 2)));
    } else {
        lemma_members_tokens_front(m);
        assert(t[1] != Tok::RightBrace);
        lemma_parse_members_any(t, 1, seq![], m);
        assert(parse_object_at(t, 0) == Ok::<(JValue, int), ErrorModel>((r, t.len() as int)));
    }
    assert(parse_value_at(t, 0) == Ok::<(JValue, int), ErrorModel>((r, t.len() as int)));
}

/// The compact text of an object whose members are in any order lexes to its
/// tokens.
pub proof fn lemma_lex_object_text(m: Seq<(Seq<char>, JValue)>)
    requires
        forall|i: int| 0 <= i < m.len() ==> #[trigger] well_formed(m[i].1),
    ensures
        lex(compact_text(JValue::Object(m))) == Ok::<Seq<Tok>, ErrorModel>(
            value_tokens(JValue::Object(m)),
        ),
{
    let s = compact_text(JValue::Object(m));
    let inner = compact_members(m);
    assert(s.subrange(0, s.len() as int) =~= s);
    lemma_written_split(s, 0, seq!['{'] + inner, seq!['}']);
    lemma_written_split(s, 0, seq!['{'], inner);
    lemma_written_index(s, 1 + inner.len() as int, seq!['}'], 0);
    if m.len() == 0 {
        lemma_prepend_empty(lex_from(s, 1));
        assert(members_tokens(m) =~= Seq::<Tok>::empty());
    } else {
        lemma_members_wf(m);
        lemma_lex_members(s, 1, m);
    }
    lemma_lex_enclosed(s, 0, inner, members_tokens(m), '{', '}', Tok::LeftBrace, Tok::RightBrace);
    assert(lex_from(s, s.len() as int) == Ok::<Seq<Tok>, ErrorModel>(seq![]));
    assert(value_tokens(JValue::Object(m)) + Seq::<Tok>::empty() =~= value_tokens(
        JValue::Object(m),
    ));
}

/// Members `b`, then a comma and `}`: the comma wants another member.
proof fn lemma_parse_members_trailing_comma(
    t: Seq<Tok>,
    q: int,
    acc: Seq<(Seq<char>, JValue)>,
    b: Seq<(Seq<char>, JValue)>,
)
    requires
        b.len() > 0,
        forall|i: int| 0 <= i < b.len() ==> #[trigger] well_formed(b[i].1),
        written_at(t, q, members_tokens(b) + seq![Tok::Comma, Tok::RightBrace]),
    ensures
        object_members(t, q, acc) is Err,
    decreases b,
{
    lemma_members_tokens_front(b);
    let k0 = b[0].0;
    let v0 = b[0].1;
    let tail = seq![Tok::Comma, Tok::RightBrace];
    let rest = if b.len() > 1 {
        seq![Tok::Comma] + members_tokens(b.drop_first())
    } else {
        Seq::<Tok>::empty()
    };
    let head = seq![Tok::Str(k0), Tok::Colon];
    assert(members_tokens(b) + tail =~= head + (value_tokens(v0) + (rest + tail)));
    lemma_written_split(t, q, head, value_tokens(v0) + (rest + tail));
    lemma_written_index(t, q, head, 0);
    lemma_written_index(t, q, head, 1);
    lemma_written_split(t, q + 2, value_tokens(v0), rest + tail);
    assert(well_formed(b[0].1));
    lemma_parse_value(t, q + 2, v0);
    lemma_value_tokens_nonempty(v0);
    let q3 = q + 2 + value_tokens(v0).len();
    lemma_written_index(t, q3, rest + tail, 0);
    let acc2 = obj_insert(acc, k0, v0);
    assert(expect_tok(t, q + 1, Tok::Colon) == Ok::<int, ErrorModel>(q + 2));
    if b.len() > 1 {
        let b2 = b.drop_first();
        assert(rest + tail =~= seq![Tok::Comma] + (members_tokens(b2) + tail));
        lemma_written_split(t, q3, seq![Tok::Comma], members_tokens(b2) + tail);
        assert forall|i: int| 0 <= i < b2.len() implies #[trigger] well_formed(b2[i].1) by {
            assert(b2[i] == b[i + 1]);
            assert(well_formed(b[i + 1].1));
        }
        lemma_parse_members_trailing_comma(t, q3 + 1, acc2, b2);
    } else {
        assert(rest + tail =~= tail);
        lemma_written_index(t, q3, tail, 1);
    }
}

/// Elements `b`, then a comma and `]`: the comma wants another element.
proof fn lemma_parse_items_trailing_comma(t: Seq<Tok>, q: int, acc: Seq<JValue>, b: Seq<JValue>)
    requires
        b.len() > 0,
        forall|i: int| 0 <= i < b.len() ==> #[trigger] well_formed(b[i]),
        written_at(t, q, elems_tokens(b) + seq![Tok::Comma, Tok::RightBracket]),
    ensures
        array_items(t, q, acc) is Err,
    decreases b,
{
    lemma_elems_tokens_front(b);
    let v0 = b[0];
    let tail = seq![Tok::Comma, Tok::RightBracket];
    let rest = if b.len() > 1 {
        seq![Tok::Comma] + elems_tokens(b.drop_first())
    } else {
        Seq::<Tok>::empty()
    };
    assert(elems_tokens(b) + tail =~= value_tokens(v0) + (rest + tail));
    lemma_written_split(t, q, value_tokens(v0), rest + tail);
    assert(well_formed(b[0]));
    lemma_parse_value(t, q, v0);
    lemma_value_tokens_nonempty(v0);
    let q1 = q + value_tokens(v0).len();
    lemma_written_index(t, q1, rest + tail, 0);
    if b.len() > 1 {
        let b2 = b.drop_first();
        assert(rest + tail =~= seq![Tok::Comma] + (elems_tokens(b2) + tail));
        lemma_written_split(t, q1, seq![Tok::Comma], elems_tokens(b2) + tail);
        assert forall|i: int| 0 <= i < b2.len() implies #[trigger] well_formed(b2[i]) by {
            assert(b2[i] == b[i + 1]);
            assert(well_formed(b[i + 1]));
        }
        lemma_parse_items_trailing_comma(t, q1 + 1, acc.push(v0), b2);
    } else {
        assert(rest + tail =~= tail);
        lemma_written_index(t, q1, tail, 1);
        assert(parse_value_at(t, q1 + 1) is Err);
    }
}

/// A comma before the closing bracket of an array or object is refused.
pub(crate) proof fn lemma_trailing_comma_tokens(a: Seq<JValue>, m: Seq<(Seq<char>, JValue)>)
    requires
        a.len() > 0,
        m.len() > 0,
        forall|i: int| 0 <= i < a.len() ==> #[trigger] well_formed(a[i]),
        forall|i: int| 0 <= i < m.len() ==> #[trigger] well_formed(m[i].1),
    ensures
        parse_tokens(seq![Tok::LeftBracket] + elems_tokens(a) + seq![Tok::Comma, Tok::RightBracket]) is Err,
        parse_tokens(seq![Tok::LeftBrace] + members_tokens(m) + seq![Tok::Comma, Tok::RightBrace]) is Err,
{
    let ta = seq![Tok::LeftBracket] + elems_tokens(a) + seq![Tok::Comma, Tok::RightBracket];
    let tm = seq![Tok::LeftBrace] + members_tokens(m) + seq![Tok::Comma, Tok::RightBrace];
    let ia = elems_tokens(a) + seq![Tok::Comma, Tok::RightBracket];
    let im = members_tokens(m) + seq![Tok::Comma, Tok::RightBrace];
    assert(ta =~= seq![Tok::LeftBracket] + ia);
    assert(tm =~= seq![Tok::LeftBrace] + im);
    assert(ta.subrange(1, 1 + ia.len() as int) =~= ia);
    assert(tm.subrange(1, 1 + im.len() as int) =~= im);
    lemma_elems_tokens_front(a);
    lemma_members_tokens_front(m);
    lemma_value_tokens_nonempty(a[0]);
    assert(ta[1] == ia[0]);
    assert(tm[1] == im[0]);
    lemma_parse_items_trailing_comma(ta, 1, seq![], a);
    lemma_parse_members_trailing_comma(tm, 1, seq![], m);
    assert(parse_value_at(ta, 0) is Err);
    assert(parse_value_at(tm, 0) is Err);
}

/// The tokens of a well-formed value parse to it.
pub proof fn lemma_parse_value_tokens(v: JValue)
    requires
        well_formed(v),
    ensures
        parse_tokens(value_tokens(v)) == Ok::<JValue, ErrorModel>(v),
{
    let t = value_tokens(v);
    assert(t.subrange(0, t.len() as int) =~= t);
    lemma_parse_value(t, 0, v);
}

/// The compact text of a well-formed value lexes to its tokens.
pub proof fn lemma_lex_compact(v: JValue)
    requires
        well_formed(v),
    ensures
        lex(compact_text(v)) == Ok::<Seq<Tok>, ErrorModel>(value_tokens(v)),
{
    let s = compact_text(v);
    assert(s.subrange(0, s.len() as int) =~= s);
    lemma_lex_value(s, 0, v);
    assert(lex_from(s, s.len() as int) == Ok::<Seq<Tok>, ErrorModel>(seq![]));
    assert(value_tokens(v) + Seq::<Tok>::empty() =~= value_tokens(v));
}


// ---------------------------------------------------------------------------
// Lexing indented text

proof fn lemma_spaces_ws(s: Seq<char>, p: int, n: int)
    requires
        0 <= n,
        written_at(s, p, spaces(n)),
    ensures
        forall|j: int| p <= j < p + n ==> is_ws(#[trigger] s[j]),
{
    assert forall|j: int| p <= j < p + n implies is_ws(#[trigger] s[j]) by {
        lemma_written_index(s, p, spaces(n), j - p);
    }
}

/// Splicing one line: indentation, what is read from `body`, an optional
/// comma, and the line feed.
proof fn lemma_lex_line(s: Seq<char>, q: int, n: int, body: Seq<char>, toks: Seq<Tok>, comma: bool)
    requires
        0 <= n,
        written_at(s, q, spaces(n) + body + (if comma {
            seq![',']
        } else {
            Seq::<char>::empty()
        }) + seq!['\n']),
        lex_from(s, q + n) == prepend(toks, lex_from(s, q + n + body.len())),
    ensures
        lex_from(s, q) == prepend(
            toks + (if comma {
                seq![Tok::Comma]
            } else {
                Seq::<Tok>::empty()
            }),
            lex_from(
                s,
                q + n + body.len() + (if comma {
                    1int
                } else {
                    0
                }) + 1,
            ),
        ),
{
    let c = if comma {
        seq![',']
    } else {
        Seq::<char>::empty()
    };
    let tc = if comma {
        seq![Tok::Comma]
    } else {
        Seq::<Tok>::empty()
    };
    let e = q + n + body.len();
    lemma_written_split(s, q, spaces(n) + body + c, seq!['\n']);
    lemma_written_split(s, q, spaces(n) + body, c);
    lemma_written_split(s, q, spaces(n), body);
    lemma_spaces_ws(s, q, n);
    lemma_lex_skip(s, q, q + n);
    lemma_written_index(s, e + c.len(), seq!['\n'], 0);
    lemma_lex_skip(s, e + c.len(), e + c.len() + 1);
    let rest = lex_from(s, e + c.len() + 1);
    if comma {
        lemma_written_index(s, e, c, 0);
        lemma_lex_single(s, e, Tok::Comma);
        lemma_prepend_prepend(toks, tc, rest);
    } else {
        lemma_prepend_empty(rest);
        assert(toks + tc =~= toks);
    }
}

/// Splicing an indented block: the opening delimiter and a line feed, what is
/// read from the lines, the indentation and the closing delimiter.
proof fn lemma_lex_block(
    s: Seq<char>,
    p: int,
    lines: Seq<char>,
    toks: Seq<Tok>,
    n: int,
    open: char,
    close: char,
    open_t: Tok,
    close_t: Tok,
)
    requires
        0 <= n,
        written_at(s, p, seq![open, '\n'] + lines + spaces(n) + seq![close]),
        (open == '[' && open_t == Tok::LeftBracket && close == ']' && close_t == Tok::RightBracket)
            || (open == '{' && open_t == Tok::LeftBrace && close == '}' && close_t
            == Tok::RightBrace),
        lex_from(s, p + 2) == prepend(toks, lex_from(s, p + 2 + lines.len())),
    ensures
        lex_from(s, p) == prepend(
            seq![open_t] + toks + seq![close_t],
            lex_from(s, p + lines.len() + n + 3),
        ),
{
    let inner = seq!['\n'] + lines + spaces(n);
    assert(seq![open, '\n'] + lines + spaces(n) + seq![close] =~= seq![open] + inner + seq![close]);
    lemma_written_split(s, p, seq![open] + inner, seq![close]);
    lemma_written_split(s, p, seq![open], inner);
    lemma_written_split(s, p + 1, seq!['\n'] + lines, spaces(n));
    lemma_written_split(s, p + 1, seq!['\n'], lines);
    lemma_written_index(s, p + 1, seq!['\n'], 0);
    lemma_lex_skip(s, p + 1, p + 2);
    lemma_spaces_ws(s, p + 2 + lines.len(), n);
    lemma_lex_skip(s, p + 2 + lines.len(), p + 2 + lines.len() + n);
    lemma_lex_enclosed(s, p, inner, toks, open, close, open_t, close_t);
}

/// The tokens read from the indented text of a value, when a token ends after it.
#[verifier::rlimit(40)]
pub proof fn lemma_lex_pretty(s: Seq<char>, p: int, v: JValue, d: int, sz: int)
    requires
        well_formed(v),
        0 <= d,
        0 <= sz,
        written_at(s, p, pretty_text(v, d, sz)),
        ends_token(s, p + pretty_text(v, d, sz).len()),
    ensures
        lex_from(s, p) == prepend(value_tokens(v), lex_from(s, p + pretty_text(v, d, sz).len())),
    decreases v,
{
    let w = pretty_text(v, d, sz);
    assert(0 <= d * sz) by (nonlinear_arith)
        requires
            0 <= d,
            0 <= sz,
    ;
    match v {
        JValue::Array(a) => {
            if a.len() == 0 {
                assert(compact_elems(a) =~= Seq::<char>::empty());
                assert(w =~= compact_text(v));
                lemma_lex_value(s, p, v);
            } else {
                let pe = pretty_elems(a, a.len() as int, d + 1, sz);
                assert(w =~= seq!['[', '\n'] + pe + (spaces(d * sz) + seq![']']));
                lemma_written_split(s, p, seq!['[', '\n'] + pe, spaces(d * sz) + seq![']']);
                lemma_written_split(s, p, seq!['[', '\n'], pe);
                lemma_lex_pretty_elems(s, p + 2, a, a.len() as int, d + 1, sz);
                assert(elems_tokens(a) + Seq::<Tok>::empty() =~= elems_tokens(a));
                lemma_lex_block(s, p, pe, elems_tokens(a), d * sz, '[', ']', Tok::LeftBracket, Tok::RightBracket);
            }
        },
        JValue::Object(m) => {
            if m.len() == 0 {
                assert(compact_members(m) =~= Seq::<char>::empty());
                assert(w =~= compact_text(v));
                lemma_lex_value(s, p, v);
            } else {
                let pm = pretty_members(m, m.len() as int, d + 1, sz);
                assert(w =~= seq!['{', '\n'] + pm + (spaces(d * sz) + seq!['}']));
                lemma_written_split(s, p, seq!['{', '\n'] + pm, spaces(d * sz) + seq!['}']);
                lemma_written_split(s, p, seq!['{', '\n'], pm);
                lemma_lex_pretty_members(s, p + 2, m, m.len() as int, d + 1, sz);
                assert(members_tokens(m) + Seq::<Tok>::empty() =~= members_tokens(m));
                lemma_lex_block(s, p, pm, members_tokens(m), d * sz, '{', '}', Tok::LeftBrace, Tok::RightBrace);
            }
        },
        _ => {
            assert(w == compact_text(v));
            lemma_lex_value(s, p, v);
        },
    }
}

/// The tokens read from the indented lines of the first elements of an array
/// of `total` elements.
proof fn lemma_lex_pretty_elems(s: Seq<char>, q: int, a: Seq<JValue>, total: int, d: int, sz: int)
    requires
        0 < a.len() <= total,
        elems_wf(a),
        0 <= d,
        0 <= sz,
        written_at(s, q, pretty_elems(a, total, d, sz)),
    ensures
        lex_from(s, q) == prepend(
            elems_tokens(a) + (if a.len() < total {
                seq![Tok::Comma]
            } else {
                Seq::<Tok>::empty()
            }),
            lex_from(s, q + pretty_elems(a, total, d, sz).len()),
        ),
    decreases a,
{
    let a2 = a.drop_last();
    let last = a.last();
    let n = d * sz;
    assert(0 <= d * sz) by (nonlinear_arith)
        requires
            0 <= d,
            0 <= sz,
    ;
    let comma = a.len() < total;
    let c = if comma {
        seq![',']
    } else {
        Seq::<char>::empty()
    };
    let body = pretty_text(last, d, sz);
    let line = spaces(n) + body + c + seq!['\n'];
    let pe2 = pretty_elems(a2, total, d, sz);
    assert(pretty_elems(a, total, d, sz) =~= pe2 + line);
    lemma_written_split(s, q, pe2, line);
    let ql = q + pe2.len();
    // the last element's line
    lemma_written_split(s, ql, spaces(n) + body + c, seq!['\n']);
    lemma_written_split(s, ql, spaces(n) + body, c);
    lemma_written_split(s, ql, spaces(n), body);
    if comma {
        lemma_written_index(s, ql + n + body.len(), c, 0);
    } else {
        lemma_written_index(s, ql + n + body.len(), seq!['\n'], 0);
    }
    lemma_lex_pretty(s, ql + n, last, d, sz);
    lemma_lex_line(s, ql, n, body, value_tokens(last), comma);
    let tc = if comma {
        seq![Tok::Comma]
    } else {
        Seq::<Tok>::empty()
    };
    let rest = lex_from(s, q + pretty_elems(a, total, d, sz).len());
    if a.len() == 1 {
        assert(pe2 =~= Seq::<char>::empty());
        assert(elems_tokens(a2) =~= Seq::<Tok>::empty());
        assert(elems_tokens(a) =~= value_tokens(last));
    } else {
        lemma_lex_pretty_elems(s, q, a2, total, d, sz);
        lemma_prepend_prepend(elems_tokens(a2) + seq![Tok::Comma], value_tokens(last) + tc, rest);
        assert(elems_tokens(a) + tc =~= elems_tokens(a2) + seq![Tok::Comma] + (value_tokens(last)
            + tc));
    }
}

/// The tokens read from the indented lines of the first members of an
/// object of `total` members.
#[verifier::rlimit(40)]
proof fn lemma_lex_pretty_members(
    s: Seq<char>,
    q: int,
    m: Seq<(Seq<char>, JValue)>,
    total: int,
    d: int,
    sz: int,
)
    requires
        0 < m.len() <= total,
        members_wf(m),
        0 <= d,
        0 <= sz,
        written_at(s, q, pretty_members(m, total, d, sz)),
    ensures
        lex_from(s, q) == prepend(
            members_tokens(m) + (if m.len() < total {
                seq![Tok::Comma]
            } else {
                Seq::<Tok>::empty()
            }),
            lex_from(s, q + pretty_members(m, total, d, sz).len()),
        ),
    decreases m,
{
    let m2 = m.drop_last();
    let k = m.last().0;
    let v = m.last().1;
    let n = d * sz;
    assert(0 <= d * sz) by (nonlinear_arith)
        requires
            0 <= d,
            0 <= sz,
    ;
    let comma = m.len() < total;
    let c = if comma {
        seq![',']
    } else {
        Seq::<char>::empty()
    };
    let kw = quoted(k) + seq![':'];
    let pv = pretty_text(v, d, sz);
    let body = kw + seq![' '] + pv;
    let line = spaces(n) + body + c + seq!['\n'];
    let pm2 = pretty_members(m2, total, d, sz);
    assert(pretty_members(m, total, d, sz) =~= pm2 + line);
    lemma_written_split(s, q, pm2, line);
    let ql = q + pm2.len();
    lemma_written_split(s, ql, spaces(n) + body + c, seq!['\n']);
    lemma_written_split(s, ql, spaces(n) + body, c);
    lemma_written_split(s, ql, spaces(n), body);
    let pk = ql + n;
    lemma_written_split(s, pk, kw + seq![' '], pv);
    lemma_written_split(s, pk, kw, seq![' ']);
    lemma_written_index(s, pk + kw.len(), seq![' '], 0);
    if comma {
        lemma_written_index(s, pk + body.len(), c, 0);
    } else {
        lemma_written_index(s, pk + body.len(), seq!['\n'], 0);
    }
    let pvp = pk + kw.len() + 1;
    lemma_lex_pretty(s, pvp, v, d, sz);
    lemma_lex_skip(s, pk + kw.len(), pvp);
    lemma_lex_key(s, pk, k, value_tokens(v), pvp + pv.len());
    let tm = seq![Tok::Str(k), Tok::Colon] + value_tokens(v);
    lemma_lex_line(s, ql, n, body, tm, comma);
    let tc = if comma {
        seq![Tok::Comma]
    } else {
        Seq::<Tok>::empty()
    };
    let rest = lex_from(s, q + pretty_members(m, total, d, sz).len());
    if m.len() == 1 {
        assert(pm2 =~= Seq::<char>::empty());
        assert(members_tokens(m2) =~= Seq::<Tok>::empty());
        assert(members_tokens(m) =~= tm);
    } else {
        lemma_lex_pretty_members(s, q, m2, total, d, sz);
        lemma_prepend_prepend(members_tokens(m2) + seq![Tok::Comma], tm + tc, rest);
        assert(members_tokens(m) + tc =~= members_tokens(m2) + seq![Tok::Comma] + (tm + tc));
    }
}

/// The indented text of a well-formed value, with its final line feed, lexes
/// to its tokens.
pub proof fn lemma_lex_pretty_text(v: JValue, sz: int)
    requires
        well_formed(v),
        0 <= sz,
    ensures
        lex(pretty_text(v, 0, sz).push('\n')) == Ok::<Seq<Tok>, ErrorModel>(value_tokens(v)),
{
    let w = pretty_text(v, 0, sz);
    let s = w.push('\n');
    assert(s.subrange(0, w.len() as int) =~= w);
    lemma_lex_pretty(s, 0, v, 0, sz);
    lemma_lex_skip(s, w.len() as int, s.len() as int);
    assert(lex_from(s, s.len() as int) == Ok::<Seq<Tok>, ErrorModel>(seq![]));
    assert(value_tokens(v) + Seq::<Tok>::empty() =~= value_tokens(v));
}


// ---------------------------------------------------------------------------
// A number read from an input is a number literal on its own

/// `t` is the part of `s` from `p`.
pub open spec fn part_at(s: Seq<char>, p: int, t: Seq<char>) -> bool {
    0 <= p && p + t.len() <= s.len() && t == s.subrange(p, p + t.len())
}

proof fn lemma_part_char(s: Seq<char>, p: int, t: Seq<char>, x: int)
    requires
        part_at(s, p, t),
        0 <= x < t.len(),
    ensures
        s[p + x] == t[x],
{
}

proof fn lemma_digits_end_part(s: Seq<char>, p: int, t: Seq<char>, x: int)
    requires
        part_at(s, p, t),
        0 <= x <= t.len(),
        digits_end(s, p + x) <= p + t.len(),
    ensures
        digits_end(s, p + x) == p + digits_end(t, x),
    decreases t.len() - x,
{
    if x < t.len() {
        lemma_part_char(s, p, t, x);
        if is_digit(t[x]) {
            lemma_digits_end_part(s, p, t, x + 1);
        }
    } else if p + x < s.len() && is_digit(s[p + x]) {
        crate::lexer::lemma_digits_end(s, p + x + 1);
    }
}

proof fn lemma_read_digits_part(s: Seq<char>, p: int, t: Seq<char>, x: int, y: int)
    requires
        part_at(s, p, t),
        0 <= x <= t.len(),
        read_digits(s, p + x) == Ok::<int, ErrorModel>(y),
        y <= p + t.len(),
    ensures
        read_digits(t, x) == Ok::<int, ErrorModel>(y - p),
{
    lemma_digits_end_part(s, p, t, x);
}

proof fn lemma_int_part_part(s: Seq<char>, p: int, t: Seq<char>, x: int, y: int)
    requires
        part_at(s, p, t),
        0 <= x <= t.len(),
        read_int_part(s, p + x) == Ok::<int, ErrorModel>(y),
        y <= p + t.len(),
    ensures
        read_int_part(t, x) == Ok::<int, ErrorModel>(y - p),
{
    if p + x < s.len() && s[p + x] == '0' {
        lemma_part_char(s, p, t, x);
        if x + 1 < t.len() {
            lemma_part_char(s, p, t, x + 1);
        }
    } else {
        if x < t.len() {
            lemma_part_char(s, p, t, x);
        }
        lemma_read_digits_part(s, p, t, x, y);
    }
}

proof fn lemma_frac_part_part(s: Seq<char>, p: int, t: Seq<char>, x: int, y: int)
    requires
        part_at(s, p, t),
        0 <= x <= t.len(),
        read_frac_part(s, p + x) == Ok::<int, ErrorModel>(y),
        y <= p + t.len(),
    ensures
        read_frac_part(t, x) == Ok::<int, ErrorModel>(y - p),
{
    if p + x < s.len() && s[p + x] == '.' {
        crate::lexer::lemma_digits_end(s, p + x + 1);
        lemma_part_char(s, p, t, x);
        lemma_read_digits_part(s, p, t, x + 1, y);
    } else if x < t.len() {
        lemma_part_char(s, p, t, x);
    }
}

proof fn lemma_exp_part_part(s: Seq<char>, p: int, t: Seq<char>, x: int, y: int)
    requires
        part_at(s, p, t),
        0 <= x <= t.len(),
        read_exp_part(s, p + x) == Ok::<int, ErrorModel>(y),
        y <= p + t.len(),
    ensures
        read_exp_part(t, x) == Ok::<int, ErrorModel>(y - p),
{
    if p + x < s.len() && (s[p + x] == 'e' || s[p + x] == 'E') {
        let q = p + x + 1;
        let q1 = if q < s.len() && (s[q] == '+' || s[q] == '-') {
            q + 1
        } else {
            q
        };
        crate::lexer::lemma_digits_end(s, q1);
        lemma_part_char(s, p, t, x);
        if x + 1 < t.len() {
            lemma_part_char(s, p, t, x + 1);
        }
        lemma_read_digits_part(s, p, t, q1 - p, y);
    } else if x < t.len() {
        lemma_part_char(s, p, t, x);
    }
}

/// The text of a number read from `s` is a whole number literal.
pub proof fn lemma_read_number_text(s: Seq<char>, p: int)
    requires
        0 <= p <= s.len(),
    ensures
        read_number(s, p) matches Ok((tok, e)) ==> tok matches Tok::Number(t) && is_number_text(t),
{
    crate::lexer::lemma_number_end(s, p);
    if let Ok(e) = number_end(s, p) {
        let t = s.subrange(p, e);
        assert(part_at(s, p, t));
        lemma_part_char(s, p, t, 0);
        let x1 = if 0 < t.len() && t[0] == '-' {
            1int
        } else {
            0
        };
        let p1 = if 0 <= p < s.len() && s[p] == '-' {
            p + 1
        } else {
            p
        };
        assert(p1 == p + x1);
        let p2 = read_int_part(s, p1)->Ok_0;
        let p3 = read_frac_part(s, p2)->Ok_0;
        crate::lexer::lemma_digits_end(s, p1);
        crate::lexer::lemma_digits_end(s, p2 + 1);
        crate::lexer::lemma_digits_end(s, p3 + 1);
        crate::lexer::lemma_digits_end(s, p3 + 2);
        assert(p <= p1 <= p2 <= p3 <= e);
        lemma_int_part_part(s, p, t, x1, p2);
        lemma_frac_part_part(s, p, t, p2 - p, p3);
        lemma_exp_part_part(s, p, t, p3 - p, e);
    }
}


// ---------------------------------------------------------------------------
// Parsed values are well formed

/// Every number token holds a number literal.
pub open spec fn numbers_ok(ts: Seq<Tok>) -> bool {
    forall|i: int| 0 <= i < ts.len() ==> (#[trigger] ts[i] matches Tok::Number(t) ==> is_number_text(t))
}

/// A string literal reads as a string token.
proof fn lemma_string_body_str(s: Seq<char>, i: int, acc: Seq<char>, start: int)
    ensures
        string_body(s, i, acc, start) matches Ok((tok, e)) ==> tok is Str,
    decreases s.len() - i,
{
    if 0 <= i < s.len() && s[i] != '"' {
        if s[i] == '\\' {
            if i + 1 < s.len() {
                match simple_escape(s[i + 1]) {
                    Some(c) => lemma_string_body_str(s, i + 2, acc.push(c), start),
                    None => {
                        crate::lexer::lemma_unicode_escape_advances(s, i + 2);
                        if let Ok((c, j)) = unicode_escape(s, i + 2) {
                            lemma_string_body_str(s, j, acc.push(c), start);
                        }
                    },
                }
            }
        } else if !is_control(s[i]) {
            lemma_string_body_str(s, i + 1, acc.push(s[i]), start);
        }
    }
}

pub proof fn lemma_lex_numbers(s: Seq<char>, p: int)
    requires
        0 <= p,
    ensures
        lex_from(s, p) matches Ok(ts) ==> numbers_ok(ts),
    decreases s.len() - p,
{
    let q = skip_ws(s, p);
    crate::lexer::lemma_skip_ws(s, p);
    if q < s.len() {
        if let Ok((t, q1)) = read_token(s, q) {
            crate::lexer::lemma_read_token_advances(s, q);
            lemma_lex_numbers(s, q1);
            lemma_read_number_text(s, q);
            lemma_string_body_str(s, q + 1, seq![], q);
            if let Ok(rest) = lex_from(s, q1) {
                let ts = seq![t] + rest;
                assert forall|i: int| 0 <= i < ts.len() implies (#[trigger] ts[i] matches Tok::Number(
                    x,
                ) ==> is_number_text(x)) by {
                    if i > 0 {
                        assert(ts[i] == rest[i - 1]);
                    }
                }
            }
        }
    }
}

/// Inserting keeps every value well formed.
proof fn lemma_obj_insert_wf(m: Seq<(Seq<char>, JValue)>, k: Seq<char>, v: JValue)
    requires
        forall|i: int| 0 <= i < m.len() ==> #[trigger] well_formed(m[i].1),
        well_formed(v),
    ensures
        forall|i: int|
            0 <= i < obj_insert(m, k, v).len() ==> #[trigger] well_formed(obj_insert(m, k, v)[i].1),
    decreases m.len(),
{
    let r = obj_insert(m, k, v);
    if m.len() > 0 {
        if m[0].0 == k || crate::value::key_lt(k, m[0].0) {
            assert forall|i: int| 0 <= i < r.len() implies #[trigger] well_formed(r[i].1) by {
                if i > 0 {
                    if m[0].0 == k {
                        assert(r[i] == m[i]);
                    } else {
                        assert(r[i] == m[i - 1]);
                    }
                }
            }
        } else {
            let t = m.drop_first();
            assert forall|i: int| 0 <= i < t.len() implies #[trigger] well_formed(t[i].1) by {
                assert(t[i] == m[i + 1]);
            }
            lemma_obj_insert_wf(t, k, v);
            assert forall|i: int| 0 <= i < r.len() implies #[trigger] well_formed(r[i].1) by {
                if i > 0 {
                    assert(r[i] == obj_insert(t, k, v)[i - 1]);
                } else {
                    assert(r[0] == m[0]);
                }
            }
        }
    }
}

pub proof fn lemma_parsed_value_wf(t: Seq<Tok>, p: int)
    requires
        numbers_ok(t),
    ensures
        parse_value_at(t, p) matches Ok((v, q)) ==> well_formed(v),
    decreases t.len() - p, 1int,
{
    if 0 <= p < t.len() {
        match t[p] {
            Tok::LeftBracket => lemma_parsed_array_wf(t, p),
            Tok::LeftBrace => lemma_parsed_object_wf(t, p),
            Tok::Number(_) => {
                assert(t[p] matches Tok::Number(x) ==> is_number_text(x));
            },
            _ => {},
        }
    }
}

proof fn lemma_parsed_array_wf(t: Seq<Tok>, p: int)
    requires
        numbers_ok(t),
    ensures
        parse_array_at(t, p) matches Ok((v, q)) ==> well_formed(v),
    decreases t.len() - p, 0int,
{
    if let Ok(q) = expect_tok(t, p, Tok::LeftBracket) {
        if !(q < t.len() && t[q] == Tok::RightBracket) {
            lemma_parsed_items_wf(t, q, seq![]);
        }
    }
}

proof fn lemma_parsed_items_wf(t: Seq<Tok>, q: int, acc: Seq<JValue>)
    requires
        numbers_ok(t),
        elems_wf(acc),
    ensures
        array_items(t, q, acc) matches Ok((v, r)) ==> well_formed(v),
    decreases t.len() - q, 2int,
{
    lemma_parsed_value_wf(t, q);
    if let Ok((v, q1)) = parse_value_at(t, q) {
        assert(acc.push(v).drop_last() =~= acc);
        assert(elems_wf(acc.push(v)));
        if q < q1 && q1 < t.len() && t[q1] == Tok::Comma {
            lemma_parsed_items_wf(t, q1 + 1, acc.push(v));
        }
    }
}

proof fn lemma_parsed_object_wf(t: Seq<Tok>, p: int)
    requires
        numbers_ok(t),
    ensures
        parse_object_at(t, p) matches Ok((v, q)) ==> well_formed(v),
    decreases t.len() - p, 0int,
{
    if let Ok(q) = expect_tok(t, p, Tok::LeftBrace) {
        if !(q < t.len() && t[q] == Tok::RightBrace) {
            lemma_members_wf(Seq::<(Seq<char>, JValue)>::empty());
            lemma_parsed_members_wf(t, q, seq![]);
        }
    }
}

proof fn lemma_parsed_members_wf(t: Seq<Tok>, q: int, acc: Seq<(Seq<char>, JValue)>)
    requires
        numbers_ok(t),
        keys_sorted(acc),
        members_wf(acc),
    ensures
        object_members(t, q, acc) matches Ok((v, r)) ==> well_formed(v),
    decreases t.len() - q, 2int,
{
    if 0 <= q < t.len() {
        if let Tok::Str(k) = t[q] {
            if let Ok(q2) = expect_tok(t, q + 1, Tok::Colon) {
                lemma_parsed_value_wf(t, q2);
                if let Ok((v, q3)) = parse_value_at(t, q2) {
                    let acc2 = obj_insert(acc, k, v);
                    lemma_obj_insert_sorted(acc, k, v);
                    lemma_members_wf(acc);
                    lemma_obj_insert_wf(acc, k, v);
                    lemma_members_wf(acc2);
                    if q2 < q3 && q3 < t.len() && t[q3] == Tok::Comma {
                        lemma_parsed_members_wf(t, q3 + 1, acc2);
                    }
                }
            }
        }
    }
}

/// Every value parsed from a text is well formed.
pub proof fn lemma_parsed_wf(s: Seq<char>)
    ensures
        (match lex(s) {
            Err(e) => Err(e),
            Ok(t) => parse_tokens(t),
        }) matches Ok(v) ==> well_formed(v),
{
    lemma_lex_numbers(s, 0);
    if let Ok(t) = lex(s) {
        lemma_parsed_value_wf(t, 0);
    }
}

} // verus!
