//! The writers: from a value to compact or indented text.

use vstd::prelude::*;
use crate::text::{chars_of, hex_lower, hex_lower_char, is_control, is_control_char, lemma_char_code};
use crate::value::{JValue, JsonValue, entries_model, lemma_array_model, lemma_object_model, values_model};

verus! {

/// The text of one character inside a string literal.
pub open spec fn escape_char(c: char) -> Seq<char> {
    if c == '"' {
        seq!['\\', '"']
    } else if c == '\\' {
        seq!['\\', '\\']
    } else if c == '\n' {
        seq!['\\', 'n']
    } else if c == '\r' {
        seq!['\\', 'r']
    } else if c == '\t' {
        seq!['\\', 't']
    } else if c == '\u{8}' {
        seq!['\\', 'b']
    } else if c == '\u{c}' {
        seq!['\\', 'f']
    } else if is_control(c) {
        seq!['\\', 'u', '0', '0', hex_lower(c as int / 16), hex_lower(c as int % 16)]
    } else {
        seq![c]
    }
}

/// The escaped text of a string, without quotes.
pub open spec fn escape(s: Seq<char>) -> Seq<char>
    decreases s.len(),
{
    if s.len() == 0 {
        seq![]
    } else {
        escape(s.drop_last()) + escape_char(s.last())
    }
}

/// A string literal.
pub open spec fn quoted(s: Seq<char>) -> Seq<char> {
    seq!['"'] + escape(s) + seq!['"']
}

/// Compact text of a value.
pub open spec fn compact_text(v: JValue) -> Seq<char>
    decreases v,
{
    match v {
        JValue::Null => "null"@,
        JValue::Bool(b) => if b {
            "true"@
        } else {
            "false"@
        },
        JValue::Number(t) => t,
        JValue::Str(s) => quoted(s),
        JValue::Array(a) => seq!['['] + compact_elems(a) + seq![']'],
        JValue::Object(m) => seq!['{'] + compact_members(m) + seq!['}'],
    }
}

/// Compact text of array elements, separated by commas.
pub open spec fn compact_elems(a: Seq<JValue>) -> Seq<char>
    decreases a,
{
    if a.len() == 0 {
        seq![]
    } else {
        compact_elems(a.drop_last()) + (if a.len() > 1 {
            seq![',']
        } else {
            seq![]
        }) + compact_text(a.last())
    }
}

/// Compact text of object members, separated by commas.
pub open spec fn compact_members(m: Seq<(Seq<char>, JValue)>) -> Seq<char>
    decreases m,
{
    if m.len() == 0 {
        seq![]
    } else {
        compact_members(m.drop_last()) + (if m.len() > 1 {
            seq![',']
        } else {
            seq![]
        }) + quoted(m.last().0) + seq![':'] + compact_text(m.last().1)
    }
}

/// `n` spaces.
pub open spec fn spaces(n: int) -> Seq<char> {
    Seq::new(n as nat, |i: int| ' ')
}

/// Indented text of a value at nesting `depth`, with `size` spaces per level.
pub open spec fn pretty_text(v: JValue, depth: int, size: int) -> Seq<char>
    decreases v,
{
    match v {
        JValue::Array(a) => if a.len() == 0 {
            seq!['[', ']']
        } else {
            seq!['[', '\n'] + pretty_elems(a, a.len() as int, depth + 1, size) + spaces(depth * size)
                + seq![']']
        },
        JValue::Object(m) => if m.len() == 0 {
            seq!['{', '}']
        } else {
            seq!['{', '\n'] + pretty_members(m, m.len() as int, depth + 1, size) + spaces(
                depth * size,
            ) + seq!['}']
        },
        _ => compact_text(v),
    }
}

/// Indented lines of the first elements of an array of `total` elements:
/// each element on its own line, all but the last followed by a comma.
pub open spec fn pretty_elems(a: Seq<JValue>, total: int, depth: int, size: int) -> Seq<char>
    decreases a,
{
    if a.len() == 0 {
        seq![]
    } else {
        pretty_elems(a.drop_last(), total, depth, size) + spaces(depth * size) + pretty_text(
            a.last(),
            depth,
            size,
        ) + (if a.len() < total {
            seq![',']
        } else {
            seq![]
        }) + seq!['\n']
    }
}

/// Indented lines of the first members of an object of `total` members.
pub open spec fn pretty_members(m: Seq<(Seq<char>, JValue)>, total: int, depth: int, size: int) -> Seq<
    char,
>
    decreases m,
{
    if m.len() == 0 {
        seq![]
    } else {
        pretty_members(m.drop_last(), total, depth, size) + spaces(depth * size) + quoted(
            m.last().0,
        ) + seq![':', ' '] + pretty_text(m.last().1, depth, size) + (if m.len() < total {
            seq![',']
        } else {
            seq![]
        }) + seq!['\n']
    }
}

/// How deeply arrays and objects nest in a value.
pub open spec fn nesting(v: JValue) -> nat
    decreases v,
{
    match v {
        JValue::Array(a) => 1 + nesting_elems(a),
        JValue::Object(m) => 1 + nesting_members(m),
        _ => 0,
    }
}

pub open spec fn nesting_elems(a: Seq<JValue>) -> nat
    decreases a,
{
    if a.len() == 0 {
        0
    } else {
        let x = nesting_elems(a.drop_last());
        let y = nesting(a.last());
        if x < y {
            y
        } else {
            x
        }
    }
}

pub open spec fn nesting_members(m: Seq<(Seq<char>, JValue)>) -> nat
    decreases m,
{
    if m.len() == 0 {
        0
    } else {
        let x = nesting_members(m.drop_last());
        let y = nesting(m.last().1);
        if x < y {
            y
        } else {
            x
        }
    }
}

proof fn lemma_nesting_elems(a: Seq<JValue>, i: int)
    requires
        0 <= i < a.len(),
    ensures
        nesting(a[i]) <= nesting_elems(a),
        nesting_elems(a.take(i)) <= nesting_elems(a),
    decreases a.len(),
{
    if i < a.len() - 1 {
        lemma_nesting_elems(a.drop_last(), i);
        assert(a.drop_last()[i] == a[i]);
        assert(a.drop_last().take(i) =~= a.take(i));
    } else {
        assert(a.take(i) =~= a.drop_last());
    }
}

proof fn lemma_nesting_members(m: Seq<(Seq<char>, JValue)>, i: int)
    requires
        0 <= i < m.len(),
    ensures
        nesting(m[i].1) <= nesting_members(m),
        nesting_members(m.take(i)) <= nesting_members(m),
    decreases m.len(),
{
    if i < m.len() - 1 {
        lemma_nesting_members(m.drop_last(), i);
        assert(m.drop_last()[i] == m[i]);
        assert(m.drop_last().take(i) =~= m.take(i));
    } else {
        assert(m.take(i) =~= m.drop_last());
    }
}

/// Appends the escaped text of `s`.
fn write_escaped_string(s: &str, out: &mut String)
    ensures
        final(out)@ == old(out)@ + escape(s@),
{
    let cs = chars_of(s);
    let mut i: usize = 0;
    assert(cs@.take(0) =~= Seq::<char>::empty());
    while i < cs.len()
        invariant
            i <= cs.len(),
            cs@ == s@,
            out@ == old(out)@ + escape(cs@.take(i as int)),
        decreases cs.len() - i,
    {
        let ch = cs[i];
        let ghost before = out@;
        if ch == '"' {
            out.push('\\');
            out.push('"');
        } else if ch == '\\' {
            out.push('\\');
            out.push('\\');
        } else if ch == '\n' {
            out.push('\\');
            out.push('n');
        } else if ch == '\r' {
            out.push('\\');
            out.push('r');
        } else if ch == '\t' {
            out.push('\\');
            out.push('t');
        } else if ch == '\u{8}' {
            out.push('\\');
            out.push('b');
        } else if ch == '\u{c}' {
            out.push('\\');
            out.push('f');
        } else if is_control_char(ch) {
            let u = ch as u32;
            proof {
                lemma_char_code(ch);
            }
            out.push('\\');
            out.push('u');
            out.push('0');
            out.push('0');
            out.push(hex_lower_char(u / 16));
            out.push(hex_lower_char(u % 16));
        } else {
            out.push(ch);
        }
        assert(out@ =~= before + escape_char(ch));
        assert(cs@.take(i + 1).drop_last() =~= cs@.take(i as int));
        i = i + 1;
    }
    assert(cs@.take(cs.len() as int) =~= cs@);
}

/// Appends the compact text of `value`.
fn write_value(value: &JsonValue, out: &mut String)
    ensures
        final(out)@ == old(out)@ + compact_text(value.model()),
    decreases value,
{
    match value {
        JsonValue::Null => out.append("null"),
        JsonValue::Bool(b) => {
            if *b {
                out.append("true");
            } else {
                out.append("false");
            }
        },
        JsonValue::Number(n) => out.append(n.as_str()),
        JsonValue::String(s) => {
            out.push('"');
            write_escaped_string(s.as_str(), out);
            out.push('"');
            assert(out@ =~= old(out)@ + quoted(s@));
        },
        JsonValue::Array(arr) => {
            proof {
                lemma_array_model(*arr);
            }
            let ghost a = values_model(arr@);
            let ghost start = out@;
            out.push('[');
            let mut i: usize = 0;
            assert(a.take(0) =~= Seq::<JValue>::empty());
            while i < arr.len()
                invariant
                    i <= arr.len(),
                    *value == JsonValue::Array(*arr),
                    a == values_model(arr@),
                    out@ == start + seq!['['] + compact_elems(a.take(i as int)),
                decreases arr.len() - i,
            {
                let ghost before = out@;
                if i > 0 {
                    out.push(',');
                }
                proof {
                    assert(decreases_to!(*value => value->Array_0));
                    assert(decreases_to!(*arr => arr@));
                    assert(decreases_to!(arr@ => arr@[i as int]));
                }
                write_value(&arr[i], out);
                proof {
                    assert(a.take(i + 1).drop_last() =~= a.take(i as int));
                    assert(a.take(i + 1).last() == arr@[i as int].model());
                    assert(out@ =~= start + seq!['['] + compact_elems(a.take(i + 1)));
                }
                i = i + 1;
            }
            out.push(']');
            assert(a.take(arr.len() as int) =~= a);
            assert(out@ =~= old(out)@ + (seq!['['] + compact_elems(a) + seq![']']));
        },
        JsonValue::Object(map) => {
            proof {
                lemma_object_model(*map);
            }
            let ghost m = entries_model(map@);
            let ghost start = out@;
            out.push('{');
            let mut i: usize = 0;
            assert(m.take(0) =~= Seq::<(Seq<char>, JValue)>::empty());
            while i < map.len()
                invariant
                    i <= map.len(),
                    *value == JsonValue::Object(*map),
                    m == entries_model(map@),
                    out@ == start + seq!['{'] + compact_members(m.take(i as int)),
                decreases map.len() - i,
            {
                let ghost before = out@;
                if i > 0 {
                    out.push(',');
                }
                let entry = &map[i];
                out.push('"');
                write_escaped_string(entry.0.as_str(), out);
                out.push('"');
                out.push(':');
                proof {
                    assert(decreases_to!(*value => value->Object_0));
                    assert(decreases_to!(*map => map@));
                    assert(decreases_to!(map@ => map@[i as int]));
                    assert(decreases_to!(map@[i as int] => map@[i as int].1));
                }
                write_value(&entry.1, out);
                proof {
                    assert(m.take(i + 1).drop_last() =~= m.take(i as int));
                    assert(m.take(i + 1).last() == (map@[i as int].0@, map@[i as int].1.model()));
                    assert(out@ =~= start + seq!['{'] + compact_members(m.take(i + 1)));
                }
                i = i + 1;
            }
            out.push('}');
            assert(m.take(map.len() as int) =~= m);
            assert(out@ =~= old(out)@ + (seq!['{'] + compact_members(m) + seq!['}']));
        },
    }
}

/// The compact text of a value.
pub fn stringify(value: &JsonValue) -> (r: String)
    ensures
        r@ == compact_text(value.model()),
{
    let mut output = String::new();
    write_value(value, &mut output);
    assert(output@ =~= compact_text(value.model()));
    output
}

/// Appends `depth * indent_size` spaces.
fn write_indent(out: &mut String, depth: usize, indent_size: usize)
    requires
        depth * indent_size <= usize::MAX,
    ensures
        final(out)@ == old(out)@ + spaces(depth * indent_size),
{
    let n = depth * indent_size;
    let mut i: usize = 0;
    while i < n
        invariant
            i <= n,
            n == depth * indent_size,
            out@ == old(out)@ + spaces(i as int),
        decreases n - i,
    {
        out.push(' ');
        assert(spaces(i + 1) =~= spaces(i as int).push(' '));
        i = i + 1;
    }
}

/// Appends the indented text of `value` at nesting `depth`.
#[verifier::rlimit(60)]
fn write_value_pretty(value: &JsonValue, out: &mut String, depth: usize, indent_size: usize)
    requires
        depth + nesting(value.model()) <= usize::MAX,
        (depth + nesting(value.model())) * indent_size <= usize::MAX,
    ensures
        final(out)@ == old(out)@ + pretty_text(value.model(), depth as int, indent_size as int),
    decreases value,
{
    match value {
        JsonValue::Array(arr) => {
            proof {
                lemma_array_model(*arr);
            }
            let ghost a = values_model(arr@);
            let ghost d = depth as int;
            let ghost sz = indent_size as int;
            if arr.len() == 0 {
                out.push('[');
                out.push(']');
                assert(out@ =~= old(out)@ + seq!['[', ']']);
                return ;
            }
            let ghost start = out@;
            out.push('[');
            out.push('\n');
            let mut i: usize = 0;
            assert(a.take(0) =~= Seq::<JValue>::empty());
            while i < arr.len()
                invariant
                    i <= arr.len(),
                    *value == JsonValue::Array(*arr),
                    a == values_model(arr@),
                    d == depth,
                    sz == indent_size,
                    depth + 1 + nesting_elems(a) <= usize::MAX,
                    (depth + 1 + nesting_elems(a)) * indent_size <= usize::MAX,
                    out@ == start + seq!['[', '\n'] + pretty_elems(
                        a.take(i as int),
                        a.len() as int,
                        d + 1,
                        sz,
                    ),
                decreases arr.len() - i,
            {
                proof {
                    lemma_nesting_elems(a, i as int);
                    assert((depth + 1) * indent_size <= (depth + 1 + nesting_elems(a)) * indent_size)
                        by (nonlinear_arith)
                        requires
                            0 <= nesting_elems(a),
                    ;
                    assert((depth + 1 + nesting(a[i as int])) * indent_size <= (depth + 1
                        + nesting_elems(a)) * indent_size) by (nonlinear_arith)
                        requires
                            nesting(a[i as int]) <= nesting_elems(a),
                    ;
                }
                write_indent(out, depth + 1, indent_size);
                proof {
                    assert(decreases_to!(*value => value->Array_0));
                    assert(decreases_to!(*arr => arr@));
                    assert(decreases_to!(arr@ => arr@[i as int]));
                }
                write_value_pretty(&arr[i], out, depth + 1, indent_size);
                if i < arr.len() - 1 {
                    out.push(',');
                }
                out.push('\n');
                proof {
                    assert(a.take(i + 1).drop_last() =~= a.take(i as int));
                    assert(a.take(i + 1).last() == arr@[i as int].model());
                    assert(out@ =~= start + seq!['[', '\n'] + pretty_elems(
                        a.take(i + 1),
                        a.len() as int,
                        d + 1,
                        sz,
                    ));
                }
                i = i + 1;
            }
            proof {
                assert(depth * indent_size <= (depth + 1 + nesting_elems(a)) * indent_size)
                    by (nonlinear_arith)
                    requires
                        0 <= nesting_elems(a),
                ;
            }
            write_indent(out, depth, indent_size);
            out.push(']');
            assert(a.take(arr.len() as int) =~= a);
            assert(out@ =~= old(out)@ + (seq!['[', '\n'] + pretty_elems(a, a.len() as int, d + 1, sz)
                + spaces(d * sz) + seq![']']));
        },
        JsonValue::Object(map) => {
            proof {
                lemma_object_model(*map);
            }
            let ghost m = entries_model(map@);
            let ghost d = depth as int;
            let ghost sz = indent_size as int;
            if map.len() == 0 {
                out.push('{');
                out.push('}');
                assert(out@ =~= old(out)@ + seq!['{', '}']);
                return ;
            }
            let ghost start = out@;
            out.push('{');
            out.push('\n');
            let mut i: usize = 0;
            assert(m.take(0) =~= Seq::<(Seq<char>, JValue)>::empty());
            while i < map.len()
                invariant
                    i <= map.len(),
                    *value == JsonValue::Object(*map),
                    m == entries_model(map@),
                    d == depth,
                    sz == indent_size,
                    depth + 1 + nesting_members(m) <= usize::MAX,
                    (depth + 1 + nesting_members(m)) * indent_size <= usize::MAX,
                    out@ == start + seq!['{', '\n'] + pretty_members(
                        m.take(i as int),
                        m.len() as int,
                        d + 1,
                        sz,
                    ),
                decreases map.len() - i,
            {
                proof {
                    lemma_nesting_members(m, i as int);
                    assert((depth + 1) * indent_size <= (depth + 1 + nesting_members(m))
                        * indent_size) by (nonlinear_arith)
                        requires
                            0 <= nesting_members(m),
                    ;
                    assert((depth + 1 + nesting(m[i as int].1)) * indent_size <= (depth + 1
                        + nesting_members(m)) * indent_size) by (nonlinear_arith)
                        requires
                            nesting(m[i as int].1) <= nesting_members(m),
                    ;
                }
                let entry = &map[i];
                write_indent(out, depth + 1, indent_size);
                out.push('"');
                write_escaped_string(entry.0.as_str(), out);
                out.push('"');
                out.push(':');
                out.push(' ');
                proof {
                    assert(decreases_to!(*value => value->Object_0));
                    assert(decreases_to!(*map => map@));
                    assert(decreases_to!(map@ => map@[i as int]));
                    assert(decreases_to!(map@[i as int] => map@[i as int].1));
                }
                write_value_pretty(&entry.1, out, depth + 1, indent_size);
                if i < map.len() - 1 {
                    out.push(',');
                }
                out.push('\n');
                proof {
                    assert(m.take(i + 1).drop_last() =~= m.take(i as int));
                    assert(m.take(i + 1).last() == (map@[i as int].0@, map@[i as int].1.model()));
                    assert(out@ =~= start + seq!['{', '\n'] + pretty_members(
                        m.take(i + 1),
                        m.len() as int,
                        d + 1,
                        sz,
                    ));
                }
                i = i + 1;
            }
            proof {
                assert(depth * indent_size <= (depth + 1 + nesting_members(m)) * indent_size)
                    by (nonlinear_arith)
                    requires
                        0 <= nesting_members(m),
                ;
            }
            write_indent(out, depth, indent_size);
            out.push('}');
            assert(m.take(map.len() as int) =~= m);
            assert(out@ =~= old(out)@ + (seq!['{', '\n'] + pretty_members(
                m,
                m.len() as int,
                d + 1,
                sz,
            ) + spaces(d * sz) + seq!['}']));
        },
        _ => {
            write_value(value, out);
        },
    }
}

/// The indented text of a value, `indent_size` spaces per level, and a final
/// line feed.
pub fn stringify_pretty(value: &JsonValue, indent_size: usize) -> (r: String)
    requires
        nesting(value.model()) <= usize::MAX,
        nesting(value.model()) * indent_size <= usize::MAX,
    ensures
        r@ == pretty_text(value.model(), 0, indent_size as int).push('\n'),
{
    let mut output = String::new();
    write_value_pretty(value, &mut output, 0, indent_size);
    output.push('\n');
    assert(output@ =~= pretty_text(value.model(), 0, indent_size as int).push('\n'));
    output
}

} // verus!
