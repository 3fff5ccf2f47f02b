//! What reading and writing do, stated on their own terms: how `\u` escapes
//! decode, that reading an object keeps every member, and how indented text
//! is laid out.

use vstd::prelude::*;
use crate::error::ErrorModel;
use crate::lexer::{Tok, hex_run, lemma_char_of_code, lex, lex_from, read_hex4, read_token, simple_escape, skip_ws, string_body, unicode_escape};
use crate::parse_text;
use crate::text::{hex_val, is_control, is_hex, lemma_char_code};
use vstd::arithmetic::div_mod::lemma_fundamental_div_mod_converse;
use crate::parser::parse_tokens;
use crate::roundtrip::{elems_tokens, lemma_trailing_comma_tokens, members_tokens, lemma_parse_value_tokens, lemma_written_index, lemma_written_split, written_at, lemma_lex_object_text, lemma_parse_object_tokens, value_tokens, well_formed};
use crate::serializer::{compact_text, pretty_elems, pretty_members, pretty_text};
use crate::value::{JValue, has_key, keys_sorted, last_value, lemma_insert_all, obj_lookup};

verus! {

/// Reading an object keeps every member, whatever the order of the members
/// and however often a key repeats: the object read has its keys in key
/// order, exactly the keys of the members, and each key holds the value of
/// the last member with that key. This holds of the object's text and of its
/// tokens alike.
pub proof fn law_parse_object_members(m: Seq<(Seq<char>, JValue)>)
    requires
        forall|i: int| 0 <= i < m.len() ==> #[trigger] well_formed(m[i].1),
    ensures
        parse_text(compact_text(JValue::Object(m))) == parse_tokens(value_tokens(JValue::Object(m))),
        parse_tokens(value_tokens(JValue::Object(m))) matches Ok(JValue::Object(r)) && keys_sorted(r)
            && (forall|k: Seq<char>| #[trigger] has_key(r, k) <==> has_key(m, k)) && (forall|
            k: Seq<char>,
        | has_key(m, k) ==> #[trigger] obj_lookup(r, k) == last_value(m, k)),
{
    lemma_lex_object_text(m);
    lemma_parse_object_tokens(m);
    lemma_insert_all(seq![], m);
    assert forall|k: Seq<char>| !has_key(Seq::<(Seq<char>, JValue)>::empty(), k) by {}
}

/// `n` spaces.
pub open spec fn blank(n: int) -> Seq<char> {
    Seq::new(n as nat, |i: int| ' ')
}

/// The line of element `i` of an array written at nesting `d`: one level
/// deeper in indentation, the element's indented text, a comma unless it is
/// the last element, and a line feed.
pub open spec fn element_line(a: Seq<JValue>, i: int, d: int, sz: int) -> Seq<char> {
    blank((d + 1) * sz) + pretty_text(a[i], d + 1, sz) + (if i + 1 < a.len() {
        seq![',']
    } else {
        seq![]
    }) + seq!['\n']
}

/// The line of member `i` of an object written at nesting `d`: one level
/// deeper in indentation, the key as a string literal, a colon and a space,
/// the value's indented text, a comma unless it is the last member, and a
/// line feed.
pub open spec fn member_line(m: Seq<(Seq<char>, JValue)>, i: int, d: int, sz: int) -> Seq<char> {
    blank((d + 1) * sz) + compact_text(JValue::Str(m[i].0)) + seq![':', ' '] + pretty_text(
        m[i].1,
        d + 1,
        sz,
    ) + (if i + 1 < m.len() {
        seq![',']
    } else {
        seq![]
    }) + seq!['\n']
}

proof fn lemma_element_lines(a: Seq<JValue>, n: int, d: int, sz: int)
    requires
        0 <= n <= a.len(),
    ensures
        pretty_elems(a.take(n), a.len() as int, d + 1, sz) == Seq::new(
            n as nat,
            |i: int| element_line(a, i, d, sz),
        ).flatten(),
    decreases n,
{
    let f = |i: int| element_line(a, i, d, sz);
    if n == 0 {
        assert(a.take(0).len() == 0);
        assert(Seq::new(0, f).len() == 0);
    } else {
        lemma_element_lines(a, n - 1, d, sz);
        let lines = Seq::new((n - 1) as nat, f);
        assert(Seq::new(n as nat, f) =~= lines.push(f(n - 1)));
        lines.lemma_flatten_push(f(n - 1));
        assert(a.take(n).drop_last() =~= a.take(n - 1));
        assert(a.take(n).last() == a[n - 1]);
        assert(blank((d + 1) * sz) =~= crate::serializer::spaces((d + 1) * sz));
    }
}

proof fn lemma_member_lines(m: Seq<(Seq<char>, JValue)>, n: int, d: int, sz: int)
    requires
        0 <= n <= m.len(),
    ensures
        pretty_members(m.take(n), m.len() as int, d + 1, sz) == Seq::new(
            n as nat,
            |i: int| member_line(m, i, d, sz),
        ).flatten(),
    decreases n,
{
    let f = |i: int| member_line(m, i, d, sz);
    if n == 0 {
        assert(m.take(0).len() == 0);
        assert(Seq::new(0, f).len() == 0);
    } else {
        lemma_member_lines(m, n - 1, d, sz);
        let lines = Seq::new((n - 1) as nat, f);
        assert(Seq::new(n as nat, f) =~= lines.push(f(n - 1)));
        lines.lemma_flatten_push(f(n - 1));
        assert(m.take(n).drop_last() =~= m.take(n - 1));
        assert(m.take(n).last() == m[n - 1]);
        assert(blank((d + 1) * sz) =~= crate::serializer::spaces((d + 1) * sz));
    }
}

/// How indented text is laid out at nesting `d` with `sz` spaces per level:
/// a scalar is written as in compact text; an empty array or object as `[]`
/// or `{}`; any other array or object as its opening bracket and a line feed,
/// one line per element or member indented by `(d + 1) * sz` spaces, and its
/// closing bracket indented by `d * sz` spaces.
pub proof fn law_pretty_layout(v: JValue, d: int, sz: int)
    ensures
        match v {
            JValue::Array(a) => pretty_text(v, d, sz) == if a.len() == 0 {
                seq!['[', ']']
            } else {
                seq!['[', '\n'] + Seq::new(a.len(), |i: int| element_line(a, i, d, sz)).flatten()
                    + blank(d * sz) + seq![']']
            },
            JValue::Object(m) => pretty_text(v, d, sz) == if m.len() == 0 {
                seq!['{', '}']
            } else {
                seq!['{', '\n'] + Seq::new(m.len(), |i: int| member_line(m, i, d, sz)).flatten()
                    + blank(d * sz) + seq!['}']
            },
            _ => pretty_text(v, d, sz) == compact_text(v),
        },
{
    match v {
        JValue::Array(a) => {
            if a.len() > 0 {
                lemma_element_lines(a, a.len() as int, d, sz);
                assert(a.take(a.len() as int) =~= a);
                assert(blank(d * sz) =~= crate::serializer::spaces(d * sz));
            }
        },
        JValue::Object(m) => {
            if m.len() > 0 {
                lemma_member_lines(m, m.len() as int, d, sz);
                assert(m.take(m.len() as int) =~= m);
                assert(blank(d * sz) =~= crate::serializer::spaces(d * sz));
            }
        },
        _ => {},
    }
}

/// A hexadecimal digit for `0 <= d < 16`, in upper or lower case.
pub open spec fn hex_digit(d: int, upper: bool) -> char {
    if d < 10 {
        (d + '0' as int) as char
    } else if upper {
        (d - 10 + 'A' as int) as char
    } else {
        (d - 10 + 'a' as int) as char
    }
}

/// `\u` and the four hexadecimal digits of a UTF-16 code unit `u`.
pub open spec fn u_escape(u: int, upper: bool) -> Seq<char> {
    seq![
        '\\',
        'u',
        hex_digit(u / 4096, upper),
        hex_digit(u / 256 % 16, upper),
        hex_digit(u / 16 % 16, upper),
        hex_digit(u % 16, upper),
    ]
}

/// The `\u` escapes of the UTF-16 encoding of a character: its code below
/// U+10000, otherwise a high surrogate and a low surrogate.
pub open spec fn utf16_escape(c: char, upper: bool) -> Seq<char> {
    let n = c as int;
    if n < 0x10000 {
        u_escape(n, upper)
    } else {
        u_escape(0xD800 + (n - 0x10000) / 1024, upper) + u_escape(0xDC00 + (n - 0x10000) % 1024, upper)
    }
}

/// A string with every character written as UTF-16 `\u` escapes.
pub open spec fn utf16_escaped(s: Seq<char>, upper: bool) -> Seq<char>
    decreases s.len(),
{
    if s.len() == 0 {
        seq![]
    } else {
        utf16_escape(s[0], upper) + utf16_escaped(s.drop_first(), upper)
    }
}

proof fn lemma_hex_digit(d: int, upper: bool)
    requires
        0 <= d < 16,
    ensures
        is_hex(hex_digit(d, upper)),
        hex_val(hex_digit(d, upper)) == d,
{
}

proof fn lemma_code_unit_digits(u: int)
    requires
        0 <= u < 0x10000,
    ensures
        u == ((u / 4096 * 16 + u / 256 % 16) * 16 + u / 16 % 16) * 16 + u % 16,
        0 <= u / 4096 < 16,
        0 <= u / 256 % 16 < 16,
        0 <= u / 16 % 16 < 16,
        0 <= u % 16 < 16,
{
    assert(u == ((u / 4096 * 16 + u / 256 % 16) * 16 + u / 16 % 16) * 16 + u % 16) by (nonlinear_arith)
        requires
            0 <= u < 0x10000,
    ;
    assert(0 <= u / 4096 < 16) by (nonlinear_arith)
        requires
            0 <= u < 0x10000,
    ;
}

/// The digits of a `\u` escape read back as its code unit.
proof fn lemma_read_u_escape(s: Seq<char>, p: int, u: int, upper: bool)
    requires
        0 <= u < 0x10000,
        written_at(s, p, u_escape(u, upper)),
    ensures
        s[p] == '\\',
        s[p + 1] == 'u',
        read_hex4(s, p + 2) == Ok::<int, ErrorModel>(u),
{
    let e = u_escape(u, upper);
    lemma_code_unit_digits(u);
    lemma_hex_digit(u / 4096, upper);
    lemma_hex_digit(u / 256 % 16, upper);
    lemma_hex_digit(u / 16 % 16, upper);
    lemma_hex_digit(u % 16, upper);
    lemma_written_index(s, p, e, 0);
    lemma_written_index(s, p, e, 1);
    lemma_written_index(s, p, e, 2);
    lemma_written_index(s, p, e, 3);
    lemma_written_index(s, p, e, 4);
    lemma_written_index(s, p, e, 5);
    reveal_with_fuel(hex_run, 5);
}

/// Reading the UTF-16 escapes of one character inside a string literal gives
/// the character.
proof fn lemma_string_utf16_char(s: Seq<char>, i: int, c: char, acc: Seq<char>, start: int, upper: bool)
    requires
        0 <= i,
        written_at(s, i, utf16_escape(c, upper)),
    ensures
        string_body(s, i, acc, start) == string_body(
            s,
            i + utf16_escape(c, upper).len(),
            acc.push(c),
            start,
        ),
{
    let n = c as int;
    lemma_char_code(c);
    lemma_char_of_code(c, c as u32);
    assert(simple_escape('u') == None::<char>);
    if n < 0x10000 {
        lemma_read_u_escape(s, i, n, upper);
        assert(unicode_escape(s, i + 2) == Ok::<(char, int), ErrorModel>((c, i + 6)));
    } else {
        let h = 0xD800 + (n - 0x10000) / 1024;
        let l = 0xDC00 + (n - 0x10000) % 1024;
        assert(0 <= (n - 0x10000) / 1024 < 0x400) by (nonlinear_arith)
            requires
                0x10000 <= n <= 0x10FFFF,
        ;
        assert(n == 0x10000 + (h - 0xD800) * 1024 + (l - 0xDC00)) by (nonlinear_arith)
            requires
                h == 0xD800 + (n - 0x10000) / 1024,
                l == 0xDC00 + (n - 0x10000) % 1024,
        ;
        lemma_written_split(s, i, u_escape(h, upper), u_escape(l, upper));
        lemma_read_u_escape(s, i, h, upper);
        lemma_read_u_escape(s, i + 6, l, upper);
        assert(unicode_escape(s, i + 2) == Ok::<(char, int), ErrorModel>((c, i + 12)));
    }
}

/// Reading the UTF-16 escapes of `y` and a closing quote gives `y`.
proof fn lemma_string_utf16(s: Seq<char>, i: int, y: Seq<char>, acc: Seq<char>, start: int, upper: bool)
    requires
        0 <= i,
        written_at(s, i, utf16_escaped(y, upper).push('"')),
    ensures
        string_body(s, i, acc, start) == Ok::<(Tok, int), ErrorModel>(
            (Tok::Str(acc + y), i + utf16_escaped(y, upper).len() + 1),
        ),
    decreases y.len(),
{
    if y.len() == 0 {
        assert(utf16_escaped(y, upper).push('"') =~= seq!['"']);
        lemma_written_index(s, i, seq!['"'], 0);
        assert(acc + y =~= acc);
    } else {
        let c = y[0];
        let y2 = y.drop_first();
        let e = utf16_escape(c, upper);
        assert(utf16_escaped(y, upper).push('"') =~= e + utf16_escaped(y2, upper).push('"'));
        lemma_written_split(s, i, e, utf16_escaped(y2, upper).push('"'));
        lemma_string_utf16_char(s, i, c, acc, start, upper);
        lemma_string_utf16(s, i + e.len(), y2, acc.push(c), start, upper);
        assert(acc.push(c) + y2 =~= acc + y);
    }
}

/// Writing every character of a string as its UTF-16 `\u` escapes (in upper
/// or lower case hexadecimal) and reading the literal back gives the string:
/// one code unit below U+10000, a surrogate pair above.
pub proof fn law_utf16_escapes_read_back(y: Seq<char>, upper: bool)
    ensures
        lex(seq!['"'] + utf16_escaped(y, upper) + seq!['"']) == Ok::<Seq<Tok>, ErrorModel>(
            seq![Tok::Str(y)],
        ),
        parse_text(seq!['"'] + utf16_escaped(y, upper) + seq!['"']) == Ok::<JValue, ErrorModel>(
            JValue::Str(y),
        ),
{
    let body = utf16_escaped(y, upper);
    let s = seq!['"'] + body + seq!['"'];
    assert(s.subrange(1, 1 + body.push('"').len() as int) =~= body.push('"'));
    lemma_string_utf16(s, 1, y, seq![], 0, upper);
    assert(Seq::<char>::empty() + y =~= y);
    assert(s[0] == '"');
    assert(skip_ws(s, 0) == 0);
    assert(read_token(s, 0) == Ok::<(Tok, int), ErrorModel>((Tok::Str(y), s.len() as int)));
    assert(lex_from(s, s.len() as int) == Ok::<Seq<Tok>, ErrorModel>(seq![]));
    assert(seq![Tok::Str(y)] + Seq::<Tok>::empty() =~= seq![Tok::Str(y)]);
    lemma_parse_value_tokens(JValue::Str(y));
    assert(value_tokens(JValue::Str(y)) == seq![Tok::Str(y)]);
}

/// A surrogate pair of `\u` escapes reads as the one character it encodes:
/// for a high surrogate `h` and a low surrogate `l`, the character with code
/// `0x10000 + (h - 0xD800) * 1024 + (l - 0xDC00)`.
pub proof fn law_surrogate_pair_escape(h: int, l: int, upper: bool)
    requires
        0xD800 <= h <= 0xDBFF,
        0xDC00 <= l <= 0xDFFF,
    ensures
        parse_text(seq!['"'] + u_escape(h, upper) + u_escape(l, upper) + seq!['"']) matches Ok(
            JValue::Str(x),
        ) && x.len() == 1 && x[0] as int == 0x10000 + (h - 0xD800) * 1024 + (l - 0xDC00),
{
    let n = 0x10000 + (h - 0xD800) * 1024 + (l - 0xDC00);
    let c = (n as u32) as char;
    assert(c as int == n);
    lemma_fundamental_div_mod_converse(n - 0x10000, 1024, h - 0xD800, l - 0xDC00);
    assert(utf16_escape(c, upper) == u_escape(h, upper) + u_escape(l, upper));
    assert(utf16_escaped(seq![c], upper) =~= utf16_escape(c, upper)) by {
        assert(seq![c].drop_first() =~= Seq::<char>::empty());
        assert(utf16_escaped(Seq::<char>::empty(), upper) =~= Seq::<char>::empty());
    }
    law_utf16_escapes_read_back(seq![c], upper);
    assert(seq!['"'] + utf16_escaped(seq![c], upper) + seq!['"'] =~= seq!['"'] + u_escape(h, upper)
        + u_escape(l, upper) + seq!['"']);
    assert(seq![c][0] == c);
}

/// A `\u` escape of a code below U+10000 that is not a surrogate reads as the
/// character with that code.
pub proof fn law_code_unit_escape(u: int, upper: bool)
    requires
        0 <= u < 0x10000,
        !(0xD800 <= u <= 0xDFFF),
    ensures
        parse_text(seq!['"'] + u_escape(u, upper) + seq!['"']) matches Ok(JValue::Str(x)) && x.len()
            == 1 && x[0] as int == u,
{
    let c = (u as u32) as char;
    assert(c as int == u);
    assert(utf16_escaped(seq![c], upper) =~= utf16_escape(c, upper)) by {
        assert(seq![c].drop_first() =~= Seq::<char>::empty());
        assert(utf16_escaped(Seq::<char>::empty(), upper) =~= Seq::<char>::empty());
    }
    law_utf16_escapes_read_back(seq![c], upper);
}

/// The letter of JSON's two-character escape of `c`, if it has one.
pub open spec fn short_escape(c: char) -> Option<char> {
    if c == '"' {
        Some('"')
    } else if c == '\\' {
        Some('\\')
    } else if c == '/' {
        Some('/')
    } else if c == '\u{8}' {
        Some('b')
    } else if c == '\u{c}' {
        Some('f')
    } else if c == '\n' {
        Some('n')
    } else if c == '\r' {
        Some('r')
    } else if c == '\t' {
        Some('t')
    } else {
        None
    }
}

/// One way to write `c` inside a string literal, chosen by `form`: the
/// character itself (form 0, where it needs no escape), its two-character
/// escape (form 1, where it has one), and otherwise its UTF-16 `\u` escapes.
pub open spec fn written_char(c: char, form: int, upper: bool) -> Seq<char> {
    if form == 0 && c != '"' && c != '\\' && !is_control(c) {
        seq![c]
    } else if form == 1 && short_escape(c) is Some {
        seq!['\\', short_escape(c)->0]
    } else {
        utf16_escape(c, upper)
    }
}

/// A string written one character after another, character `i` in form
/// `forms(i)`.
pub open spec fn written_string(s: Seq<char>, forms: spec_fn(int) -> int, upper: bool) -> Seq<char>
    decreases s.len(),
{
    if s.len() == 0 {
        seq![]
    } else {
        written_string(s.drop_last(), forms, upper) + written_char(
            s.last(),
            forms(s.len() - 1),
            upper,
        )
    }
}

proof fn lemma_string_written_char(
    s: Seq<char>,
    i: int,
    c: char,
    form: int,
    upper: bool,
    acc: Seq<char>,
    start: int,
)
    requires
        0 <= i,
        written_at(s, i, written_char(c, form, upper)),
    ensures
        string_body(s, i, acc, start) == string_body(
            s,
            i + written_char(c, form, upper).len(),
            acc.push(c),
            start,
        ),
{
    let w = written_char(c, form, upper);
    if form == 0 && c != '"' && c != '\\' && !is_control(c) {
        lemma_written_index(s, i, w, 0);
    } else if form == 1 && short_escape(c) is Some {
        lemma_written_index(s, i, w, 0);
        lemma_written_index(s, i, w, 1);
        assert(simple_escape(short_escape(c)->0) == Some(c));
    } else {
        lemma_string_utf16_char(s, i, c, acc, start, upper);
    }
}

proof fn lemma_written_string_split(s: Seq<char>, forms: spec_fn(int) -> int, upper: bool, n: int)
    requires
        0 <= n <= s.len(),
    ensures
        written_string(s, forms, upper) == written_string(s.take(n), forms, upper) + written_string(
            s.skip(n),
            |i: int| forms(i + n),
            upper,
        ),
    decreases s.len(),
{
    let g = |i: int| forms(i + n);
    if n == s.len() {
        assert(s.take(n) =~= s);
        assert(s.skip(n).len() == 0);
        assert(written_string(s, forms, upper) + Seq::<char>::empty() =~= written_string(
            s,
            forms,
            upper,
        ));
    } else {
        lemma_written_string_split(s.drop_last(), forms, upper, n);
        assert(s.drop_last().take(n) =~= s.take(n));
        assert(s.drop_last().skip(n) =~= s.skip(n).drop_last());
        assert(s.skip(n).last() == s.last());
        assert(g(s.skip(n).len() - 1) == forms(s.len() - 1));
        assert(written_string(s.skip(n), g, upper) == written_string(s.skip(n).drop_last(), g, upper)
            + written_char(s.last(), forms(s.len() - 1), upper));
    }
}

proof fn lemma_string_written(
    s: Seq<char>,
    i: int,
    y: Seq<char>,
    forms: spec_fn(int) -> int,
    upper: bool,
    acc: Seq<char>,
    start: int,
)
    requires
        0 <= i,
        written_at(s, i, written_string(y, forms, upper).push('"')),
    ensures
        string_body(s, i, acc, start) == Ok::<(Tok, int), ErrorModel>(
            (Tok::Str(acc + y), i + written_string(y, forms, upper).len() + 1),
        ),
    decreases y.len(),
{
    if y.len() == 0 {
        assert(written_string(y, forms, upper).push('"') =~= seq!['"']);
        lemma_written_index(s, i, seq!['"'], 0);
        assert(acc + y =~= acc);
    } else {
        let c = y[0];
        let y2 = y.drop_first();
        let g = |j: int| forms(j + 1);
        lemma_written_string_split(y, forms, upper, 1);
        assert(y.take(1) =~= seq![c]);
        assert(y.skip(1) =~= y2);
        assert(seq![c].drop_last() =~= Seq::<char>::empty());
        assert(written_string(Seq::<char>::empty(), forms, upper) =~= Seq::<char>::empty());
        let e = written_char(c, forms(0), upper);
        assert(written_string(seq![c], forms, upper) =~= e);
        assert(written_string(y, forms, upper).push('"') =~= e + written_string(y2, g, upper).push(
            '"',
        ));
        lemma_written_split(s, i, e, written_string(y2, g, upper).push('"'));
        lemma_string_written_char(s, i, c, forms(0), upper, acc, start);
        lemma_string_written(s, i + e.len(), y2, g, upper, acc.push(c), start);
        assert(acc.push(c) + y2 =~= acc + y);
    }
}

/// However each character of a string is written in a string literal, as
/// itself where it needs no escape, as its two-character escape, or as its
/// UTF-16 `\u` escapes in either case of hexadecimal, reading the literal
/// back gives the string.
pub proof fn law_string_literal_read_back(y: Seq<char>, forms: spec_fn(int) -> int, upper: bool)
    ensures
        lex(seq!['"'] + written_string(y, forms, upper) + seq!['"']) == Ok::<Seq<Tok>, ErrorModel>(
            seq![Tok::Str(y)],
        ),
        parse_text(seq!['"'] + written_string(y, forms, upper) + seq!['"']) == Ok::<
            JValue,
            ErrorModel,
        >(JValue::Str(y)),
{
    let body = written_string(y, forms, upper);
    let s = seq!['"'] + body + seq!['"'];
    assert(s.subrange(1, 1 + body.push('"').len() as int) =~= body.push('"'));
    lemma_string_written(s, 1, y, forms, upper, seq![], 0);
    assert(Seq::<char>::empty() + y =~= y);
    assert(s[0] == '"');
    assert(skip_ws(s, 0) == 0);
    assert(read_token(s, 0) == Ok::<(Tok, int), ErrorModel>((Tok::Str(y), s.len() as int)));
    assert(lex_from(s, s.len() as int) == Ok::<Seq<Tok>, ErrorModel>(seq![]));
    assert(seq![Tok::Str(y)] + Seq::<Tok>::empty() =~= seq![Tok::Str(y)]);
    lemma_parse_value_tokens(JValue::Str(y));
    assert(value_tokens(JValue::Str(y)) == seq![Tok::Str(y)]);
}

/// A string literal whose escapes at `i` begin with the code unit `u` that
/// cannot start a character: reading it fails.
proof fn lemma_bad_unit_fails(s: Seq<char>, i: int, u: int, upper: bool)
    requires
        0 <= i,
        0xD800 <= u <= 0xDFFF,
        written_at(s, i, u_escape(u, upper)),
        0xDC00 <= u || !(i + 7 < s.len() && s[i + 6] == '\\' && s[i + 7] == 'u') || (i + 12 <= s.len()
            && exists|w: int|
            0 <= w < 0x10000 && !(0xDC00 <= w <= 0xDFFF) && written_at(
                s,
                i + 6,
                #[trigger] u_escape(w, upper),
            )),
    ensures
        unicode_escape(s, i + 2) is Err,
{
    lemma_read_u_escape(s, i, u, upper);
    if u < 0xDC00 && i + 7 < s.len() && s[i + 6] == '\\' && s[i + 7] == 'u' {
        let w = choose|w: int|
            0 <= w < 0x10000 && !(0xDC00 <= w <= 0xDFFF) && written_at(
                s,
                i + 6,
                #[trigger] u_escape(w, upper),
            );
        lemma_read_u_escape(s, i + 6, w, upper);
    }
}

/// A surrogate escape that is not the first half of a pair followed by the
/// second half is refused: a low surrogate alone, a high surrogate at the end
/// of the literal, and a high surrogate followed by the escape of anything but
/// a low surrogate.
pub proof fn law_unpaired_surrogate_escape(h: int, l: int, w: int, upper: bool)
    requires
        0xD800 <= h <= 0xDBFF,
        0xDC00 <= l <= 0xDFFF,
        0 <= w < 0x10000,
        !(0xDC00 <= w <= 0xDFFF),
    ensures
        parse_text(seq!['"'] + u_escape(l, upper) + seq!['"']) is Err,
        parse_text(seq!['"'] + u_escape(h, upper) + seq!['"']) is Err,
        parse_text(seq!['"'] + u_escape(h, upper) + u_escape(w, upper) + seq!['"']) is Err,
{
    let s1 = seq!['"'] + u_escape(l, upper) + seq!['"'];
    let s2 = seq!['"'] + u_escape(h, upper) + seq!['"'];
    let s3 = seq!['"'] + u_escape(h, upper) + u_escape(w, upper) + seq!['"'];
    assert(s1.subrange(1, 7) =~= u_escape(l, upper));
    assert(s2.subrange(1, 7) =~= u_escape(h, upper));
    assert(s3.subrange(1, 7) =~= u_escape(h, upper));
    assert(s3.subrange(7, 13) =~= u_escape(w, upper));
    assert(s2[7] == '"');
    lemma_bad_unit_fails(s1, 1, l, upper);
    lemma_bad_unit_fails(s2, 1, h, upper);
    lemma_bad_unit_fails(s3, 1, h, upper);
    assert(simple_escape('u') == None::<char>);
    lemma_read_u_escape(s1, 1, l, upper);
    lemma_read_u_escape(s2, 1, h, upper);
    lemma_read_u_escape(s3, 1, h, upper);
    assert(skip_ws(s1, 0) == 0);
    assert(skip_ws(s2, 0) == 0);
    assert(skip_ws(s3, 0) == 0);
    assert(string_body(s1, 1, seq![], 0) is Err);
    assert(string_body(s2, 1, seq![], 0) is Err);
    assert(string_body(s3, 1, seq![], 0) is Err);
    assert(lex(s1) is Err);
    assert(lex(s2) is Err);
    assert(lex(s3) is Err);
}

/// Reading tokens refuses a comma before the closing bracket of an array or
/// an object: after a comma another element or member must come.
pub proof fn law_trailing_comma_refused(a: Seq<JValue>, m: Seq<(Seq<char>, JValue)>)
    requires
        a.len() > 0,
        m.len() > 0,
        forall|i: int| 0 <= i < a.len() ==> #[trigger] well_formed(a[i]),
        forall|i: int| 0 <= i < m.len() ==> #[trigger] well_formed(m[i].1),
    ensures
        parse_tokens(seq![Tok::LeftBracket] + elems_tokens(a) + seq![Tok::Comma, Tok::RightBracket]) is Err,
        parse_tokens(seq![Tok::LeftBrace] + members_tokens(m) + seq![Tok::Comma, Tok::RightBrace]) is Err,
{
    lemma_trailing_comma_tokens(a, m);
}

} // verus!
