//! JSON values, their mathematical model, and the operations on objects.

use vstd::prelude::*;
use crate::text::chars_of;

verus! {

/// Mathematical model of a JSON value. A number is modelled by its text; an
/// object by its entries in key order.
pub enum JValue {
    Null,
    Bool(bool),
    Number(Seq<char>),
    Str(Seq<char>),
    Array(Seq<JValue>),
    Object(Seq<(Seq<char>, JValue)>),
}

/// A JSON value. A number holds its text (a JSON number literal); an object
/// holds its entries, each key once, in increasing key order.
#[derive(Debug, PartialEq)]
pub enum JsonValue {
    Null,
    Bool(bool),
    Number(String),
    String(String),
    Array(Vec<JsonValue>),
    Object(Vec<(String, JsonValue)>),
}

/// Unused parser state over raw characters.
pub struct JsonParser {
    input: Vec<char>,
    index: usize,
}

/// The value returned for a missing key or index.
pub const NULL_VALUE: JsonValue = JsonValue::Null;

impl JsonValue {
    pub open spec fn model(&self) -> JValue
        decreases self,
    {
        match self {
            JsonValue::Null => JValue::Null,
            JsonValue::Bool(b) => JValue::Bool(*b),
            JsonValue::Number(t) => JValue::Number(t@),
            JsonValue::String(s) => JValue::Str(s@),
            JsonValue::Array(a) => JValue::Array(
                Seq::new(
                    a.len() as nat,
                    |i: int|
                        if 0 <= i < a.len() {
                            a@[i].model()
                        } else {
                            JValue::Null
                        },
                ),
            ),
            JsonValue::Object(m) => JValue::Object(
                Seq::new(
                    m.len() as nat,
                    |i: int|
                        if 0 <= i < m.len() {
                            (m@[i].0@, m@[i].1.model())
                        } else {
                            (Seq::empty(), JValue::Null)
                        },
                ),
            ),
        }
    }
}

/// The models of the values of a vector.
pub open spec fn values_model(a: Seq<JsonValue>) -> Seq<JValue> {
    Seq::new(a.len(), |i: int| a[i].model())
}

/// The models of the entries of an object.
pub open spec fn entries_model(m: Seq<(String, JsonValue)>) -> Seq<(Seq<char>, JValue)> {
    Seq::new(m.len(), |i: int| (m[i].0@, m[i].1.model()))
}

pub proof fn lemma_array_model(a: Vec<JsonValue>)
    ensures
        JsonValue::Array(a).model() == JValue::Array(values_model(a@)),
{
    let v = JsonValue::Array(a);
    assert(v.model() is Array);
    let s = v.model()->Array_0;
    assert(s =~= values_model(a@));
}

pub proof fn lemma_object_model(m: Vec<(String, JsonValue)>)
    ensures
        JsonValue::Object(m).model() == JValue::Object(entries_model(m@)),
{
    let v = JsonValue::Object(m);
    assert(v.model() is Object);
    let s = v.model()->Object_0;
    assert(s =~= entries_model(m@));
}

/// Strict order on keys: lexicographic by code point, a proper prefix first.
pub open spec fn key_lt(a: Seq<char>, b: Seq<char>) -> bool
    decreases a.len(),
{
    if a.len() == 0 {
        b.len() > 0
    } else if b.len() == 0 {
        false
    } else if a[0] != b[0] {
        (a[0] as int) < (b[0] as int)
    } else {
        key_lt(a.drop_first(), b.drop_first())
    }
}

/// Keys strictly increasing: each key occurs once, in key order.
pub open spec fn keys_sorted(m: Seq<(Seq<char>, JValue)>) -> bool {
    forall|i: int, j: int| 0 <= i < j < m.len() ==> key_lt(#[trigger] m[i].0, #[trigger] m[j].0)
}

/// The entries after inserting `k` with value `v`: an entry with key `k` is
/// replaced, otherwise the entry goes before the first larger key.
pub open spec fn obj_insert(m: Seq<(Seq<char>, JValue)>, k: Seq<char>, v: JValue) -> Seq<
    (Seq<char>, JValue),
>
    decreases m.len(),
{
    if m.len() == 0 {
        seq![(k, v)]
    } else if m[0].0 == k {
        seq![(k, v)] + m.drop_first()
    } else if key_lt(k, m[0].0) {
        seq![(k, v)] + m
    } else {
        seq![m[0]] + obj_insert(m.drop_first(), k, v)
    }
}

/// The value of the first entry with key `k`, or null.
pub open spec fn obj_lookup(m: Seq<(Seq<char>, JValue)>, k: Seq<char>) -> JValue
    decreases m.len(),
{
    if m.len() == 0 {
        JValue::Null
    } else if m[0].0 == k {
        m[0].1
    } else {
        obj_lookup(m.drop_first(), k)
    }
}

/// `v[k]`: the value under key `k` of an object, null otherwise.
pub open spec fn value_get(v: JValue, k: Seq<char>) -> JValue {
    match v {
        JValue::Object(m) => obj_lookup(m, k),
        _ => JValue::Null,
    }
}

/// `v[i]`: the element at index `i` of an array, null otherwise.
pub open spec fn value_at(v: JValue, i: int) -> JValue {
    match v {
        JValue::Array(a) => if 0 <= i < a.len() {
            a[i]
        } else {
            JValue::Null
        },
        _ => JValue::Null,
    }
}

pub proof fn lemma_key_lt_irreflexive(a: Seq<char>)
    ensures
        !key_lt(a, a),
    decreases a.len(),
{
    if a.len() > 0 {
        lemma_key_lt_irreflexive(a.drop_first());
    }
}

/// Exactly one of `a < b`, `a == b`, `b < a` holds.
pub proof fn lemma_key_lt_trichotomy(a: Seq<char>, b: Seq<char>)
    ensures
        key_lt(a, b) || a == b || key_lt(b, a),
        !(key_lt(a, b) && key_lt(b, a)),
        !(key_lt(a, b) && a == b),
    decreases a.len(),
{
    if a.len() == 0 {
        if b.len() == 0 {
            assert(a =~= b);
        }
    } else if b.len() == 0 {
    } else if a[0] != b[0] {
    } else {
        lemma_key_lt_trichotomy(a.drop_first(), b.drop_first());
        lemma_key_lt_irreflexive(a);
        if a.drop_first() == b.drop_first() {
            assert(a =~= seq![a[0]] + a.drop_first());
            assert(b =~= seq![b[0]] + b.drop_first());
        }
    }
}

pub proof fn lemma_key_lt_transitive(a: Seq<char>, b: Seq<char>, c: Seq<char>)
    requires
        key_lt(a, b),
        key_lt(b, c),
    ensures
        key_lt(a, c),
    decreases a.len(),
{
    if a.len() > 0 && b.len() > 0 && c.len() > 0 && a[0] == b[0] && b[0] == c[0] {
        lemma_key_lt_transitive(a.drop_first(), b.drop_first(), c.drop_first());
    }
}

/// Comparing two keys after a common prefix of length `i`.
pub proof fn lemma_key_lt_skip(a: Seq<char>, b: Seq<char>, i: int)
    requires
        0 <= i <= a.len(),
        i <= b.len(),
        a.take(i) == b.take(i),
    ensures
        key_lt(a, b) == key_lt(a.skip(i), b.skip(i)),
    decreases i,
{
    if i == 0 {
        assert(a.skip(0) =~= a);
        assert(b.skip(0) =~= b);
    } else {
        assert(a[0] == a.take(i)[0]);
        assert(b[0] == b.take(i)[0]);
        assert(a.drop_first().take(i - 1) =~= b.drop_first().take(i - 1)) by {
            assert forall|j: int| 0 <= j < i - 1 implies #[trigger] a.drop_first().take(i - 1)[j]
                == b.drop_first().take(i - 1)[j] by {
                assert(a.drop_first().take(i - 1)[j] == a[j + 1]);
                assert(b.drop_first().take(i - 1)[j] == b[j + 1]);
                assert(a.take(i)[j + 1] == a[j + 1]);
                assert(b.take(i)[j + 1] == b[j + 1]);
            }
        }
        lemma_key_lt_skip(a.drop_first(), b.drop_first(), i - 1);
        assert(a.drop_first().skip(i - 1) =~= a.skip(i));
        assert(b.drop_first().skip(i - 1) =~= b.skip(i));
    }
}

/// Inserting a key larger than every key of a sorted object appends it.
pub proof fn lemma_obj_insert_last(m: Seq<(Seq<char>, JValue)>, k: Seq<char>, v: JValue)
    requires
        forall|i: int| 0 <= i < m.len() ==> key_lt(#[trigger] m[i].0, k),
    ensures
        obj_insert(m, k, v) == m.push((k, v)),
    decreases m.len(),
{
    if m.len() == 0 {
        assert(seq![(k, v)] =~= m.push((k, v)));
    } else {
        lemma_key_lt_trichotomy(m[0].0, k);
        assert forall|i: int| 0 <= i < m.drop_first().len() implies key_lt(
            #[trigger] m.drop_first()[i].0,
            k,
        ) by {
            assert(m.drop_first()[i] == m[i + 1]);
        }
        lemma_obj_insert_last(m.drop_first(), k, v);
        assert(seq![m[0]] + m.drop_first().push((k, v)) =~= m.push((k, v)));
    }
}

/// After the first `i` entries, all smaller than `k`, insertion goes on in the rest.
proof fn lemma_obj_insert_skip(m: Seq<(Seq<char>, JValue)>, k: Seq<char>, v: JValue, i: int)
    requires
        0 <= i <= m.len(),
        forall|j: int| 0 <= j < i ==> key_lt(#[trigger] m[j].0, k),
    ensures
        obj_insert(m, k, v) == m.take(i) + obj_insert(m.skip(i), k, v),
    decreases i,
{
    if i == 0 {
        assert(m.skip(0) =~= m);
        assert(m.take(0) + obj_insert(m, k, v) =~= obj_insert(m, k, v));
    } else {
        lemma_key_lt_trichotomy(m[0].0, k);
        assert forall|j: int| 0 <= j < i - 1 implies key_lt(#[trigger] m.drop_first()[j].0, k) by {
            assert(m.drop_first()[j] == m[j + 1]);
        }
        lemma_obj_insert_skip(m.drop_first(), k, v, i - 1);
        assert(m.drop_first().skip(i - 1) =~= m.skip(i));
        assert(seq![m[0]] + m.drop_first().take(i - 1) =~= m.take(i));
        assert(seq![m[0]] + (m.drop_first().take(i - 1) + obj_insert(m.skip(i), k, v)) =~= m.take(i)
            + obj_insert(m.skip(i), k, v));
    }
}

/// Insertion keeps keys sorted.
pub proof fn lemma_obj_insert_sorted(m: Seq<(Seq<char>, JValue)>, k: Seq<char>, v: JValue)
    requires
        keys_sorted(m),
    ensures
        keys_sorted(obj_insert(m, k, v)),
        forall|i: int|
            0 <= i < obj_insert(m, k, v).len() ==> (#[trigger] obj_insert(m, k, v)[i].0 == k
                || exists|j: int| 0 <= j < m.len() && m[j].0 == obj_insert(m, k, v)[i].0),
    decreases m.len(),
{
    let r = obj_insert(m, k, v);
    if m.len() == 0 {
    } else if m[0].0 == k {
        assert forall|i: int, j: int| 0 <= i < j < r.len() implies key_lt(
            #[trigger] r[i].0,
            #[trigger] r[j].0,
        ) by {
            if i == 0 {
                assert(r[j] == m[j]);
            } else {
                assert(r[i] == m[i] && r[j] == m[j]);
            }
        }
        assert forall|i: int| 0 <= i < r.len() implies (#[trigger] r[i].0 == k || exists|j: int|
            0 <= j < m.len() && m[j].0 == r[i].0) by {
            if i > 0 {
                assert(r[i] == m[i]);
            }
        }
    } else if key_lt(k, m[0].0) {
        assert forall|i: int, j: int| 0 <= i < j < r.len() implies key_lt(
            #[trigger] r[i].0,
            #[trigger] r[j].0,
        ) by {
            if i == 0 {
                assert(r[j] == m[j - 1]);
                if j - 1 > 0 {
                    lemma_key_lt_transitive(k, m[0].0, m[j - 1].0);
                }
            } else {
                assert(r[i] == m[i - 1] && r[j] == m[j - 1]);
            }
        }
        assert forall|i: int| 0 <= i < r.len() implies (#[trigger] r[i].0 == k || exists|j: int|
            0 <= j < m.len() && m[j].0 == r[i].0) by {
            if i > 0 {
                assert(r[i] == m[i - 1]);
            }
        }
    } else {
        let t = m.drop_first();
        assert(keys_sorted(t)) by {
            assert forall|i: int, j: int| 0 <= i < j < t.len() implies key_lt(
                #[trigger] t[i].0,
                #[trigger] t[j].0,
            ) by {
                assert(t[i] == m[i + 1] && t[j] == m[j + 1]);
            }
        }
        lemma_obj_insert_sorted(t, k, v);
        let rt = obj_insert(t, k, v);
        lemma_key_lt_trichotomy(k, m[0].0);
        assert forall|i: int| 0 <= i < rt.len() implies key_lt(m[0].0, #[trigger] rt[i].0) by {
            if rt[i].0 != k {
                let j = choose|j: int| 0 <= j < t.len() && t[j].0 == rt[i].0;
                assert(t[j] == m[j + 1]);
            }
        }
        assert forall|i: int, j: int| 0 <= i < j < r.len() implies key_lt(
            #[trigger] r[i].0,
            #[trigger] r[j].0,
        ) by {
            if i == 0 {
                assert(r[j] == rt[j - 1]);
            } else {
                assert(r[i] == rt[i - 1] && r[j] == rt[j - 1]);
            }
        }
        assert forall|i: int| 0 <= i < r.len() implies (#[trigger] r[i].0 == k || exists|j: int|
            0 <= j < m.len() && m[j].0 == r[i].0) by {
            if i > 0 {
                assert(r[i] == rt[i - 1]);
                if rt[i - 1].0 != k {
                    let j = choose|j: int| 0 <= j < t.len() && t[j].0 == rt[i - 1].0;
                    assert(t[j] == m[j + 1]);
                }
            } else {
                assert(r[0] == m[0]);
            }
        }
    }
}

/// Reading a key after inserting it gives the inserted value.
pub proof fn law_get_after_insert(m: Seq<(Seq<char>, JValue)>, k: Seq<char>, v: JValue)
    ensures
        obj_lookup(obj_insert(m, k, v), k) == v,
        value_get(JValue::Object(obj_insert(m, k, v)), k) == v,
    decreases m.len(),
{
    if m.len() > 0 && m[0].0 != k && !key_lt(k, m[0].0) {
        law_get_after_insert(m.drop_first(), k, v);
        assert((seq![m[0]] + obj_insert(m.drop_first(), k, v)).drop_first() =~= obj_insert(
            m.drop_first(),
            k,
            v,
        ));
    }
}

/// Inserting a key leaves what every other key reads unchanged.
pub proof fn law_get_other_after_insert(
    m: Seq<(Seq<char>, JValue)>,
    k: Seq<char>,
    v: JValue,
    other: Seq<char>,
)
    requires
        other != k,
    ensures
        obj_lookup(obj_insert(m, k, v), other) == obj_lookup(m, other),
    decreases m.len(),
{
    if m.len() == 0 {
        assert(seq![(k, v)].drop_first() =~= m);
    } else {
        if m[0].0 == k {
            assert((seq![(k, v)] + m.drop_first()).drop_first() =~= m.drop_first());
        } else if key_lt(k, m[0].0) {
            assert((seq![(k, v)] + m).drop_first() =~= m);
        } else {
            law_get_other_after_insert(m.drop_first(), k, v, other);
            assert((seq![m[0]] + obj_insert(m.drop_first(), k, v)).drop_first() =~= obj_insert(
                m.drop_first(),
                k,
                v,
            ));
        }
    }
}

/// Whether some entry has key `k`.
pub open spec fn has_key(m: Seq<(Seq<char>, JValue)>, k: Seq<char>) -> bool {
    exists|j: int| 0 <= j < m.len() && #[trigger] m[j].0 == k
}

/// Every entry of `m` under a key other than `k` is in `r`.
spec fn keeps_others(m: Seq<(Seq<char>, JValue)>, k: Seq<char>, r: Seq<(Seq<char>, JValue)>) -> bool {
    forall|j: int|
        0 <= j < m.len() && m[j].0 != k ==> exists|i: int| 0 <= i < r.len() && #[trigger] r[i] == #[trigger] m[j]
}

proof fn lemma_drop_first_sorted(m: Seq<(Seq<char>, JValue)>)
    requires
        keys_sorted(m),
        m.len() > 0,
    ensures
        keys_sorted(m.drop_first()),
{
    let t = m.drop_first();
    assert forall|i: int, j: int| 0 <= i < j < t.len() implies key_lt(
        #[trigger] t[i].0,
        #[trigger] t[j].0,
    ) by {
        assert(t[i] == m[i + 1] && t[j] == m[j + 1]);
    }
}

/// Insertion keeps every entry under another key.
proof fn lemma_insert_keeps_others(m: Seq<(Seq<char>, JValue)>, k: Seq<char>, v: JValue)
    ensures
        keeps_others(m, k, obj_insert(m, k, v)),
    decreases m.len(),
{
    let r = obj_insert(m, k, v);
    if m.len() == 0 {
    } else if m[0].0 == k {
        assert forall|j: int| 0 <= j < m.len() && m[j].0 != k implies exists|i: int|
            0 <= i < r.len() && #[trigger] r[i] == #[trigger] m[j] by {
            assert(r[j] == m[j]);
        }
    } else if key_lt(k, m[0].0) {
        assert forall|j: int| 0 <= j < m.len() && m[j].0 != k implies exists|i: int|
            0 <= i < r.len() && #[trigger] r[i] == #[trigger] m[j] by {
            assert(r[j + 1] == m[j]);
        }
    } else {
        let t = m.drop_first();
        let rt = obj_insert(t, k, v);
        lemma_insert_keeps_others(t, k, v);
        assert(r == seq![m[0]] + rt);
        assert forall|j: int| 0 <= j < m.len() && m[j].0 != k implies exists|i: int|
            0 <= i < r.len() && #[trigger] r[i] == #[trigger] m[j] by {
            if j == 0 {
                assert(r[0] == m[0]);
            } else {
                assert(t[j - 1] == m[j]);
                let i1 = choose|i: int| 0 <= i < rt.len() && #[trigger] rt[i] == #[trigger] t[j - 1];
                assert(r[i1 + 1] == m[j]);
            }
        }
    }
}

/// Insertion adds one entry exactly when the key is new.
proof fn lemma_insert_len(m: Seq<(Seq<char>, JValue)>, k: Seq<char>, v: JValue)
    requires
        keys_sorted(m),
    ensures
        obj_insert(m, k, v).len() == m.len() + (if has_key(m, k) {
            0int
        } else {
            1int
        }),
        exists|i: int| 0 <= i < obj_insert(m, k, v).len() && #[trigger] obj_insert(m, k, v)[i] == (k, v),
    decreases m.len(),
{
    let r = obj_insert(m, k, v);
    if m.len() == 0 {
        assert(r[0] == (k, v));
    } else if m[0].0 == k {
        assert(r[0] == (k, v));
        assert(m[0].0 == k);
    } else if key_lt(k, m[0].0) {
        assert(r[0] == (k, v));
        if has_key(m, k) {
            let j = choose|j: int| 0 <= j < m.len() && #[trigger] m[j].0 == k;
            if j > 0 {
                lemma_key_lt_transitive(k, m[0].0, m[j].0);
            }
            lemma_key_lt_irreflexive(k);
        }
    } else {
        let t = m.drop_first();
        let rt = obj_insert(t, k, v);
        lemma_drop_first_sorted(m);
        lemma_insert_len(t, k, v);
        assert(r == seq![m[0]] + rt);
        let i0 = choose|i: int| 0 <= i < rt.len() && #[trigger] rt[i] == (k, v);
        assert(r[i0 + 1] == (k, v));
        if has_key(m, k) {
            let j = choose|j: int| 0 <= j < m.len() && #[trigger] m[j].0 == k;
            assert(t[j - 1] == m[j]);
            assert(has_key(t, k));
        }
        if has_key(t, k) {
            let j = choose|j: int| 0 <= j < t.len() && #[trigger] t[j].0 == k;
            assert(t[j] == m[j + 1]);
            assert(has_key(m, k));
        }
    }
}

/// Inserting into entries that hold each key once, in key order: the result
/// is again in key order; its keys are those of `m` and `k` (no other key is
/// lost or gained); `k` reads as `v` and every other key reads as before; and
/// it has one entry more exactly when `k` was absent.
pub proof fn law_obj_insert_entries(m: Seq<(Seq<char>, JValue)>, k: Seq<char>, v: JValue)
    requires
        keys_sorted(m),
    ensures
        keys_sorted(obj_insert(m, k, v)),
        forall|other: Seq<char>|
            #![trigger has_key(obj_insert(m, k, v), other)]
            #![trigger has_key(m, other)]
            has_key(obj_insert(m, k, v), other) <==> (other == k || has_key(m, other)),
        obj_lookup(obj_insert(m, k, v), k) == v,
        forall|other: Seq<char>|
            other != k ==> #[trigger] obj_lookup(obj_insert(m, k, v), other) == obj_lookup(m, other),
        obj_insert(m, k, v).len() == m.len() + (if has_key(m, k) {
            0int
        } else {
            1int
        }),
{
    let r = obj_insert(m, k, v);
    lemma_insert_len(m, k, v);
    law_get_after_insert(m, k, v);
    assert forall|other: Seq<char>| other != k implies #[trigger] obj_lookup(r, other) == obj_lookup(
        m,
        other,
    ) by {
        law_get_other_after_insert(m, k, v, other);
    }
    assert forall|other: Seq<char>| has_key(r, other) implies (other == k || has_key(m, other)) by {
        lemma_obj_insert_sorted(m, k, v);
        let i = choose|i: int| 0 <= i < r.len() && #[trigger] r[i].0 == other;
        if r[i].0 != k {
            let j = choose|j: int| 0 <= j < m.len() && m[j].0 == r[i].0;
            assert(m[j].0 == other);
        }
    }
    assert forall|other: Seq<char>| (other == k || has_key(m, other)) implies has_key(r, other) by {
        if other == k {
            let i = choose|i: int| 0 <= i < r.len() && #[trigger] r[i] == (k, v);
            assert(r[i].0 == other);
        } else {
            lemma_insert_keeps_others(m, k, v);
            let j = choose|j: int| 0 <= j < m.len() && #[trigger] m[j].0 == other;
            let i = choose|i: int| 0 <= i < r.len() && #[trigger] r[i] == #[trigger] m[j];
            assert(r[i].0 == other);
        }
    }
    lemma_obj_insert_sorted(m, k, v);
}

/// The value of the last member with key `k`, or null.
pub open spec fn last_value(m: Seq<(Seq<char>, JValue)>, k: Seq<char>) -> JValue
    decreases m.len(),
{
    if m.len() == 0 {
        JValue::Null
    } else if m.last().0 == k {
        m.last().1
    } else {
        last_value(m.drop_last(), k)
    }
}

/// The entries after inserting the members of `b` one after another.
pub open spec fn insert_all(acc: Seq<(Seq<char>, JValue)>, b: Seq<(Seq<char>, JValue)>) -> Seq<
    (Seq<char>, JValue),
>
    decreases b.len(),
{
    if b.len() == 0 {
        acc
    } else {
        insert_all(obj_insert(acc, b[0].0, b[0].1), b.drop_first())
    }
}

/// `last_value` read from the front.
proof fn lemma_last_value_front(b: Seq<(Seq<char>, JValue)>, k: Seq<char>)
    requires
        b.len() > 0,
    ensures
        last_value(b, k) == (if has_key(b.drop_first(), k) {
            last_value(b.drop_first(), k)
        } else if b[0].0 == k {
            b[0].1
        } else {
            JValue::Null
        }),
        has_key(b, k) <==> (b[0].0 == k || has_key(b.drop_first(), k)),
    decreases b.len(),
{
    let t = b.drop_first();
    if has_key(b, k) {
        let j = choose|j: int| 0 <= j < b.len() && #[trigger] b[j].0 == k;
        if j > 0 {
            assert(t[j - 1] == b[j]);
        }
    }
    if has_key(t, k) {
        let j = choose|j: int| 0 <= j < t.len() && #[trigger] t[j].0 == k;
        assert(t[j] == b[j + 1]);
    }
    if b.len() == 1 {
        assert(b.drop_last().len() == 0);
        assert(b.last() == b[0]);
        assert(!has_key(t, k));
    } else {
        let c = b.drop_last();
        lemma_last_value_front(c, k);
        assert(c[0] == b[0]);
        assert(c.drop_first() =~= t.drop_last());
        assert(t.last() == b.last());
        if t.last().0 != k {
            if has_key(t.drop_last(), k) {
                let j = choose|j: int| 0 <= j < t.drop_last().len() && #[trigger] t.drop_last()[j].0 == k;
                assert(t[j] == t.drop_last()[j]);
            }
            if has_key(t, k) {
                let j = choose|j: int| 0 <= j < t.len() && #[trigger] t[j].0 == k;
                assert(j < t.len() - 1);
                assert(t.drop_last()[j] == t[j]);
            }
        } else {
            assert(t[t.len() - 1].0 == k);
        }
    }
}

/// Inserting members one after another into ordered entries: the result is
/// in key order, holds the keys of both, and each key of the members reads
/// as its last member's value, every other key as before.
pub proof fn lemma_insert_all(acc: Seq<(Seq<char>, JValue)>, b: Seq<(Seq<char>, JValue)>)
    requires
        keys_sorted(acc),
    ensures
        keys_sorted(insert_all(acc, b)),
        forall|k: Seq<char>|
            #![trigger has_key(insert_all(acc, b), k)]
            has_key(insert_all(acc, b), k) <==> (has_key(acc, k) || has_key(b, k)),
        forall|k: Seq<char>|
            #[trigger] obj_lookup(insert_all(acc, b), k) == (if has_key(b, k) {
                last_value(b, k)
            } else {
                obj_lookup(acc, k)
            }),
    decreases b.len(),
{
    if b.len() == 0 {
        assert forall|k: Seq<char>| !has_key(b, k) by {}
    } else {
        let k0 = b[0].0;
        let v0 = b[0].1;
        let acc2 = obj_insert(acc, k0, v0);
        let t = b.drop_first();
        law_obj_insert_entries(acc, k0, v0);
        lemma_insert_all(acc2, t);
        assert(insert_all(acc, b) == insert_all(acc2, t));
        assert forall|k: Seq<char>| #[trigger] has_key(insert_all(acc, b), k) <==> (has_key(acc, k)
            || has_key(b, k)) by {
            lemma_last_value_front(b, k);
            assert(has_key(acc2, k) <==> (k == k0 || has_key(acc, k)));
        }
        assert forall|k: Seq<char>| #[trigger] obj_lookup(insert_all(acc, b), k) == (if has_key(b, k) {
            last_value(b, k)
        } else {
            obj_lookup(acc, k)
        }) by {
            lemma_last_value_front(b, k);
            if k != k0 {
                assert(obj_lookup(acc2, k) == obj_lookup(acc, k));
            }
        }
    }
}

/// The result of comparing two keys.
pub enum KeyOrder {
    Less,
    Equal,
    Greater,
}

fn code_point(c: char) -> (r: u32)
    ensures
        r as int == c as int,
{
    c as u32
}

/// Compares two keys in key order.
pub fn compare_keys(a: &Vec<char>, b: &Vec<char>) -> (r: KeyOrder)
    ensures
        r is Less <==> key_lt(a@, b@),
        r is Equal <==> a@ == b@,
        r is Greater <==> key_lt(b@, a@),
{
    let mut i: usize = 0;
    while i < a.len() && i < b.len() && a[i] == b[i]
        invariant
            i <= a.len(),
            i <= b.len(),
            a@.take(i as int) == b@.take(i as int),
        decreases a.len() - i,
    {
        assert(a@.take(i + 1) =~= a@.take(i as int).push(a@[i as int]));
        assert(b@.take(i + 1) =~= b@.take(i as int).push(b@[i as int]));
        i = i + 1;
    }
    proof {
        lemma_key_lt_skip(a@, b@, i as int);
        lemma_key_lt_skip(b@, a@, i as int);
        lemma_key_lt_trichotomy(a@, b@);
        if i == a.len() && i == b.len() {
            assert(a@ =~= a@.take(i as int));
            assert(b@ =~= b@.take(i as int));
        } else if i < a.len() && i < b.len() {
            assert(a@.skip(i as int)[0] == a@[i as int]);
            assert(b@.skip(i as int)[0] == b@[i as int]);
        }
    }
    if i == a.len() && i == b.len() {
        KeyOrder::Equal
    } else if i == a.len() {
        KeyOrder::Less
    } else if i == b.len() {
        KeyOrder::Greater
    } else if code_point(a[i]) < code_point(b[i]) {
        KeyOrder::Less
    } else {
        KeyOrder::Greater
    }
}

/// Inserts `key` with `value` into entries kept in key order, replacing the
/// value of an equal key.
pub fn object_insert(entries: &mut Vec<(String, JsonValue)>, key: String, value: JsonValue)
    ensures
        entries_model(final(entries)@) == obj_insert(entries_model(old(entries)@), key@, value.model()),
{
    let ghost m = entries_model(entries@);
    let ghost k = key@;
    let ghost v = value.model();
    let kc = chars_of(key.as_str());
    let mut i: usize = 0;
    while i < entries.len()
        invariant
            entries@ == old(entries)@,
            m == entries_model(entries@),
            k == key@,
            v == value.model(),
            kc@ == k,
            i <= entries.len(),
            forall|j: int| 0 <= j < i ==> key_lt(#[trigger] m[j].0, k),
        decreases entries.len() - i,
    {
        let ec = chars_of(entries[i].0.as_str());
        match compare_keys(&ec, &kc) {
            KeyOrder::Less => {
                i = i + 1;
            },
            KeyOrder::Equal => {
                proof {
                    lemma_obj_insert_skip(m, k, v, i as int);
                    assert(m.skip(i as int)[0] == m[i as int]);
                    assert(m.skip(i as int).drop_first() =~= m.skip(i + 1));
                }
                entries.set(i, (key, value));
                proof {
                    assert(entries_model(entries@) =~= m.take(i as int) + (seq![(k, v)] + m.skip(
                        i + 1,
                    )));
                }
                return ;
            },
            KeyOrder::Greater => {
                proof {
                    lemma_obj_insert_skip(m, k, v, i as int);
                    assert(m.skip(i as int)[0] == m[i as int]);
                    lemma_key_lt_trichotomy(k, m[i as int].0);
                }
                entries.insert(i, (key, value));
                proof {
                    assert(entries_model(entries@) =~= m.take(i as int) + (seq![(k, v)] + m.skip(
                        i as int,
                    )));
                }
                return ;
            },
        }
    }
    proof {
        lemma_obj_insert_skip(m, k, v, i as int);
        assert(m.skip(i as int) =~= Seq::<(Seq<char>, JValue)>::empty());
        assert(m.take(i as int) =~= m);
    }
    entries.push((key, value));
    assert(entries_model(entries@) =~= m + seq![(k, v)]);
}

impl JsonValue {
    pub fn is_null(&self) -> (r: bool)
        ensures
            r == (self.model() is Null),
    {
        matches!(self, JsonValue::Null)
    }

    pub fn is_bool(&self) -> (r: bool)
        ensures
            r == (self.model() is Bool),
    {
        matches!(self, JsonValue::Bool(_))
    }

    pub fn is_number(&self) -> (r: bool)
        ensures
            r == (self.model() is Number),
    {
        matches!(self, JsonValue::Number(_))
    }

    pub fn is_string(&self) -> (r: bool)
        ensures
            r == (self.model() is Str),
    {
        matches!(self, JsonValue::String(_))
    }

    pub fn is_array(&self) -> (r: bool)
        ensures
            r == (self.model() is Array),
    {
        matches!(self, JsonValue::Array(_))
    }

    pub fn is_object(&self) -> (r: bool)
        ensures
            r == (self.model() is Object),
    {
        matches!(self, JsonValue::Object(_))
    }

    pub fn as_bool(&self) -> (r: Option<bool>)
        ensures
            r == (match self.model() {
                JValue::Bool(b) => Some(b),
                _ => None::<bool>,
            }),
    {
        match self {
            JsonValue::Bool(b) => Some(*b),
            _ => None,
        }
    }

    pub fn as_str(&self) -> (r: Option<&str>)
        ensures
            r is Some <==> self.model() is Str,
            r matches Some(s) ==> self.model() == JValue::Str(s@),
    {
        match self {
            JsonValue::String(s) => Some(s.as_str()),
            _ => None,
        }
    }

    pub fn as_array(&self) -> (r: Option<&Vec<JsonValue>>)
        ensures
            self is Array ==> r == Some(&self->Array_0),
            !(self is Array) ==> r is None,
    {
        match self {
            JsonValue::Array(a) => Some(a),
            _ => None,
        }
    }

    pub fn as_object(&self) -> (r: Option<&Vec<(String, JsonValue)>>)
        ensures
            self is Object ==> r == Some(&self->Object_0),
            !(self is Object) ==> r is None,
    {
        match self {
            JsonValue::Object(m) => Some(m),
            _ => None,
        }
    }

    /// `self[key]`: the value under `key` in an object; null when the key is
    /// missing or the value is not an object.
    pub fn get(&self, key: &str) -> (r: &JsonValue)
        ensures
            r.model() == value_get(self.model(), key@),
    {
        match self {
            JsonValue::Object(m) => {
                proof {
                    lemma_object_model(*m);
                }
                let ghost em = entries_model(m@);
                let k = String::from_str(key);
                let mut i: usize = 0;
                assert(em.skip(0) =~= em);
                while i < m.len()
                    invariant
                        em == entries_model(m@),
                        self.model() == JValue::Object(em),
                        k@ == key@,
                        i <= m.len(),
                        obj_lookup(em, key@) == obj_lookup(em.skip(i as int), key@),
                    decreases m.len() - i,
                {
                    assert(em.skip(i as int)[0] == em[i as int]);
                    if m[i].0 == k {
                        assert(em[i as int] == (m@[i as int].0@, m@[i as int].1.model()));
                        assert(obj_lookup(em.skip(i as int), key@) == em[i as int].1);
                        return &m[i].1;
                    }
                    assert(em.skip(i as int).drop_first() =~= em.skip(i + 1));
                    i = i + 1;
                }
                &NULL_VALUE
            },
            _ => &NULL_VALUE,
        }
    }

    /// `self[index]`: the element at `index` of an array; null when the index
    /// is out of bounds or the value is not an array.
    pub fn at(&self, index: usize) -> (r: &JsonValue)
        ensures
            r.model() == value_at(self.model(), index as int),
    {
        match self {
            JsonValue::Array(a) => {
                proof {
                    lemma_array_model(*a);
                }
                if index < a.len() {
                    &a[index]
                } else {
                    &NULL_VALUE
                }
            },
            _ => &NULL_VALUE,
        }
    }
}

impl From<bool> for JsonValue {
    fn from(b: bool) -> (r: JsonValue) {
        JsonValue::Bool(b)
    }
}

impl vstd::std_specs::convert::FromSpecImpl<bool> for JsonValue {
    open spec fn obeys_from_spec() -> bool {
        true
    }

    open spec fn from_spec(b: bool) -> JsonValue {
        JsonValue::Bool(b)
    }
}

impl From<String> for JsonValue {
    fn from(s: String) -> (r: JsonValue) {
        JsonValue::String(s)
    }
}

impl vstd::std_specs::convert::FromSpecImpl<String> for JsonValue {
    open spec fn obeys_from_spec() -> bool {
        true
    }

    open spec fn from_spec(s: String) -> JsonValue {
        JsonValue::String(s)
    }
}

} // verus!
