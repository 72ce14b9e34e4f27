//! What the JSON output is in terms of JSON values, and that it can be read in one
//! way only.

use crate::output::{json_char, json_chars, json_text};
use crate::output_laws::{lemma_chars_front, lemma_literals};
use crate::text::{decimal, digit};
use vstd::prelude::*;

verus! {

/// A JSON value; the fields of an object are in order.
pub enum JsonValue {
    Null,
    Flag(bool),
    Number(nat),
    Text(Seq<char>),
    List(Seq<JsonValue>),
    Object(Seq<(Seq<char>, JsonValue)>),
}

/// A JSON value, written without blanks.
pub open spec fn json_written(v: JsonValue) -> Seq<char>
    decreases v, 0int,
{
    match v {
        JsonValue::Null => "null"@,
        JsonValue::Flag(b) => if b {
            "true"@
        } else {
            "false"@
        },
        JsonValue::Number(n) => decimal(n),
        JsonValue::Text(s) => json_text(s),
        JsonValue::List(items) => seq!['['] + items_written(items, 0) + seq![']'],
        JsonValue::Object(fields) => seq!['{'] + fields_written(fields, 0) + seq!['}'],
    }
}

/// The items of a list from the `i`th on, with commas between them.
pub open spec fn items_written(items: Seq<JsonValue>, i: int) -> Seq<char>
    decreases items, items.len() - i,
{
    if i < 0 || i >= items.len() {
        Seq::empty()
    } else if i + 1 == items.len() {
        json_written(items[i])
    } else {
        json_written(items[i]) + seq![','] + items_written(items, i + 1)
    }
}

/// The fields of an object from the `i`th on, with commas between them.
pub open spec fn fields_written(fields: Seq<(Seq<char>, JsonValue)>, i: int) -> Seq<char>
    decreases fields, fields.len() - i,
{
    if i < 0 || i >= fields.len() {
        Seq::empty()
    } else if i + 1 == fields.len() {
        json_text(fields[i].0) + seq![':'] + json_written(fields[i].1)
    } else {
        json_text(fields[i].0) + seq![':'] + json_written(fields[i].1) + seq![',']
            + fields_written(fields, i + 1)
    }
}

proof fn lemma_same_start(p: Seq<char>, x: Seq<char>, q: Seq<char>, y: Seq<char>)
    requires
        p + x == q + y,
        p.len() == q.len(),
    ensures
        p == q,
        x == y,
{
    let t = p + x;
    assert(p =~= t.take(p.len() as int));
    assert(q =~= t.take(p.len() as int));
    assert(x =~= t.skip(p.len() as int));
    assert(y =~= t.skip(p.len() as int));
}

/// What is written for a character tells the character, and where it ends.
proof fn lemma_char_unique(c: char, x: Seq<char>, d: char, y: Seq<char>)
    requires
        json_char(c) + x == json_char(d) + y,
    ensures
        c == d,
        x == y,
{
    lemma_literals();
    lemma_char_shape(c);
    lemma_char_shape(d);
    let p = json_char(c);
    let q = json_char(d);
    let t = p + x;
    assert(t[0] == p[0] && t[0] == q[0]);
    if p[0] == '\\' {
        assert(t[1] == p[1] && t[1] == q[1]);
        if p[1] == 'u' {
            assert(t[4] == p[4] && t[4] == q[4]);
            assert(t[5] == p[5] && t[5] == q[5]);
            assert(c as nat / 16 * 16 + c as nat % 16 == c as nat);
            assert(d as nat / 16 * 16 + d as nat % 16 == d as nat);
        }
    }
    lemma_same_start(p, x, q, y);
}

/// A character is written as itself, or with a backslash in front.
proof fn lemma_char_shape(c: char)
    ensures
        ({
            let p = json_char(c);
            if c == '"' || c == '\\' {
                p == seq!['\\', c]
            } else if c == '\n' {
                p == seq!['\\', 'n']
            } else if c == '\r' {
                p == seq!['\\', 'r']
            } else if c == '\t' {
                p == seq!['\\', 't']
            } else if (c as u32) < 0x20 {
                p == seq!['\\', 'u', '0', '0', digit(c as nat / 16), digit(c as nat % 16)]
            } else {
                p == seq![c]
            }
        }),
{
    lemma_literals();
    if c != '"' && c != '\\' && c != '\n' && c != '\r' && c != '\t' && (c as u32) < 0x20 {
        assert(json_char(c) =~= seq![
            '\\',
            'u',
            '0',
            '0',
            digit(c as nat / 16),
            digit(c as nat % 16),
        ]);
    }
}

proof fn lemma_chars_unique(s: Seq<char>, x: Seq<char>, t: Seq<char>, y: Seq<char>)
    requires
        json_chars(s) + (seq!['"'] + x) == json_chars(t) + (seq!['"'] + y),
    ensures
        s == t,
        x == y,
    decreases s.len(),
{
    let a = seq!['"'] + x;
    let b = seq!['"'] + y;
    if s.len() > 0 {
        lemma_chars_front(s);
        lemma_char_shape(s[0]);
        assert(json_chars(s) + a =~= json_char(s[0]) + (json_chars(s.drop_first()) + a));
        assert((json_chars(s) + a)[0] == json_char(s[0])[0]);
    } else {
        assert(json_chars(s) + a =~= a);
        assert((json_chars(s) + a)[0] == '"');
    }
    if t.len() > 0 {
        lemma_chars_front(t);
        lemma_char_shape(t[0]);
        assert(json_chars(t) + b =~= json_char(t[0]) + (json_chars(t.drop_first()) + b));
        assert((json_chars(t) + b)[0] == json_char(t[0])[0]);
    } else {
        assert(json_chars(t) + b =~= b);
        assert((json_chars(t) + b)[0] == '"');
    }
    if s.len() > 0 && t.len() > 0 {
        lemma_char_unique(
            s[0],
            json_chars(s.drop_first()) + a,
            t[0],
            json_chars(t.drop_first()) + b,
        );
        lemma_chars_unique(s.drop_first(), x, t.drop_first(), y);
        assert(s =~= seq![s[0]] + s.drop_first());
        assert(t =~= seq![t[0]] + t.drop_first());
    } else {
        assert(s.len() == 0 && t.len() == 0);
        assert(s =~= t);
        lemma_same_start(seq!['"'], x, seq!['"'], y);
    }
}

proof fn lemma_text_unique(s: Seq<char>, x: Seq<char>, t: Seq<char>, y: Seq<char>)
    requires
        json_text(s) + x == json_text(t) + y,
    ensures
        s == t,
        x == y,
{
    let a = json_chars(s) + (seq!['"'] + x);
    let b = json_chars(t) + (seq!['"'] + y);
    assert(json_text(s) + x =~= seq!['"'] + a);
    assert(json_text(t) + y =~= seq!['"'] + b);
    lemma_same_start(seq!['"'], a, seq!['"'], b);
    lemma_chars_unique(s, x, t, y);
}

pub open spec fn is_digit(c: char) -> bool {
    '0' <= c <= '9'
}

proof fn lemma_decimal_digits(n: nat)
    ensures
        decimal(n).len() > 0,
        n >= 10 ==> decimal(n).len() > 1,
        forall|i: int| 0 <= i < decimal(n).len() ==> is_digit(#[trigger] decimal(n)[i]),
    decreases n,
{
    if n >= 10 {
        lemma_decimal_digits(n / 10);
    }
}

proof fn lemma_decimal_unique(n: nat, m: nat)
    requires
        decimal(n) == decimal(m),
    ensures
        n == m,
    decreases n,
{
    lemma_decimal_digits(n);
    lemma_decimal_digits(m);
    if n < 10 {
        assert(m < 10);
        assert(decimal(n)[0] == digit(n) && decimal(m)[0] == digit(m));
    } else {
        assert(m >= 10);
        assert(decimal(n).drop_last() =~= decimal(n / 10));
        assert(decimal(m).drop_last() =~= decimal(m / 10));
        assert(decimal(n).last() == digit(n % 10) && decimal(m).last() == digit(m % 10));
        lemma_decimal_unique(n / 10, m / 10);
    }
}

/// What follows a value does not go on with a digit.
spec fn is_ended(x: Seq<char>) -> bool {
    x.len() == 0 || !is_digit(x[0])
}

proof fn lemma_number_unique(n: nat, x: Seq<char>, m: nat, y: Seq<char>)
    requires
        decimal(n) + x == decimal(m) + y,
        is_ended(x),
        is_ended(y),
    ensures
        n == m,
        x == y,
{
    lemma_decimal_digits(n);
    lemma_decimal_digits(m);
    let p = decimal(n);
    let q = decimal(m);
    let t = p + x;
    if p.len() < q.len() {
        assert(t[p.len() as int] == x[0]);
        assert((q + y)[p.len() as int] == q[p.len() as int]);
    } else if q.len() < p.len() {
        assert((q + y)[q.len() as int] == y[0]);
        assert(t[q.len() as int] == p[q.len() as int]);
    }
    lemma_same_start(p, x, q, y);
    lemma_decimal_unique(n, m);
}

/// The first character of a value tells what kind of value it is.
spec fn starts_like(v: JsonValue, c: char) -> bool {
    match v {
        JsonValue::Null => c == 'n',
        JsonValue::Flag(b) => c == if b {
            't'
        } else {
            'f'
        },
        JsonValue::Number(_) => is_digit(c),
        JsonValue::Text(_) => c == '"',
        JsonValue::List(_) => c == '[',
        JsonValue::Object(_) => c == '{',
    }
}

proof fn lemma_start(v: JsonValue)
    ensures
        json_written(v).len() > 0,
        starts_like(v, json_written(v)[0]),
{
    reveal_strlit("null");
    reveal_strlit("true");
    reveal_strlit("false");
    if let JsonValue::Number(n) = v {
        lemma_decimal_digits(n);
    }
}

/// What is written for a value tells the value, and where it ends.
proof fn lemma_value_unique(a: JsonValue, x: Seq<char>, b: JsonValue, y: Seq<char>)
    requires
        json_written(a) + x == json_written(b) + y,
        is_ended(x),
        is_ended(y),
    ensures
        a == b,
        x == y,
    decreases a, 0int,
{
    lemma_start(a);
    lemma_start(b);
    let t = json_written(a) + x;
    assert(t[0] == json_written(a)[0]);
    assert((json_written(b) + y)[0] == json_written(b)[0]);
    match (a, b) {
        (JsonValue::Number(n), JsonValue::Number(m)) => {
            lemma_number_unique(n, x, m, y);
        },
        (JsonValue::Text(s), JsonValue::Text(u)) => {
            lemma_text_unique(s, x, u, y);
        },
        (JsonValue::List(p), JsonValue::List(q)) => {
            let c = items_written(p, 0) + (seq![']'] + x);
            let d = items_written(q, 0) + (seq![']'] + y);
            assert(t =~= seq!['['] + c);
            assert(json_written(b) + y =~= seq!['['] + d);
            lemma_same_start(seq!['['], c, seq!['['], d);
            lemma_items_unique(p, 0, x, q, 0, y);
            assert(p.skip(0) =~= p && q.skip(0) =~= q);
        },
        (JsonValue::Object(p), JsonValue::Object(q)) => {
            let c = fields_written(p, 0) + (seq!['}'] + x);
            let d = fields_written(q, 0) + (seq!['}'] + y);
            assert(t =~= seq!['{'] + c);
            assert(json_written(b) + y =~= seq!['{'] + d);
            lemma_same_start(seq!['{'], c, seq!['{'], d);
            lemma_fields_unique(p, 0, x, q, 0, y);
            assert(p.skip(0) =~= p && q.skip(0) =~= q);
        },
        _ => {
            assert(json_written(a) == json_written(b));
            lemma_same_start(json_written(a), x, json_written(b), y);
        },
    }
}

/// What stands behind the `i`th item of a list.
spec fn after_item(items: Seq<JsonValue>, i: int, x: Seq<char>) -> Seq<char> {
    if i + 1 == items.len() {
        seq![']'] + x
    } else {
        seq![','] + (items_written(items, i + 1) + (seq![']'] + x))
    }
}

proof fn lemma_item(items: Seq<JsonValue>, i: int, x: Seq<char>)
    requires
        0 <= i < items.len(),
    ensures
        items_written(items, i) + (seq![']'] + x) == json_written(items[i]) + after_item(
            items,
            i,
            x,
        ),
        is_ended(after_item(items, i, x)),
        (items_written(items, i) + (seq![']'] + x))[0] != ']',
{
    lemma_start(items[i]);
    assert(items_written(items, i) + (seq![']'] + x) =~= json_written(items[i]) + after_item(
        items,
        i,
        x,
    ));
    assert(after_item(items, i, x)[0] == ',' || after_item(items, i, x)[0] == ']');
}

proof fn lemma_items_unique(
    p: Seq<JsonValue>,
    i: int,
    x: Seq<char>,
    q: Seq<JsonValue>,
    j: int,
    y: Seq<char>,
)
    requires
        0 <= i <= p.len(),
        0 <= j <= q.len(),
        items_written(p, i) + (seq![']'] + x) == items_written(q, j) + (seq![']'] + y),
    ensures
        p.skip(i) == q.skip(j),
        x == y,
    decreases p, p.len() - i,
{
    if i < p.len() {
        lemma_item(p, i, x);
    } else {
        assert((items_written(p, i) + (seq![']'] + x))[0] == ']');
    }
    if j < q.len() {
        lemma_item(q, j, y);
    } else {
        assert((items_written(q, j) + (seq![']'] + y))[0] == ']');
    }
    if i < p.len() && j < q.len() {
        let c = after_item(p, i, x);
        let d = after_item(q, j, y);
        lemma_value_unique(p[i], c, q[j], d);
        assert(c[0] == if i + 1 == p.len() { ']' } else { ',' });
        assert(d[0] == if j + 1 == q.len() { ']' } else { ',' });
        if i + 1 == p.len() {
            lemma_same_start(seq![']'], x, seq![']'], y);
        } else {
            lemma_same_start(
                seq![','],
                items_written(p, i + 1) + (seq![']'] + x),
                seq![','],
                items_written(q, j + 1) + (seq![']'] + y),
            );
            lemma_items_unique(p, i + 1, x, q, j + 1, y);
        }
        if i + 1 == p.len() {
            assert(p.skip(i) =~= q.skip(j));
        } else {
            assert(p.skip(i) =~= seq![p[i]] + p.skip(i + 1));
            assert(q.skip(j) =~= seq![q[j]] + q.skip(j + 1));
        }
    } else {
        assert(i == p.len() && j == q.len());
        assert(p.skip(i) =~= q.skip(j));
        assert(items_written(p, i) + (seq![']'] + x) =~= seq![']'] + x);
        assert(items_written(q, j) + (seq![']'] + y) =~= seq![']'] + y);
        lemma_same_start(seq![']'], x, seq![']'], y);
    }
}

/// What stands behind the `i`th field of an object.
spec fn after_field(fields: Seq<(Seq<char>, JsonValue)>, i: int, x: Seq<char>) -> Seq<char> {
    if i + 1 == fields.len() {
        seq!['}'] + x
    } else {
        seq![','] + (fields_written(fields, i + 1) + (seq!['}'] + x))
    }
}

proof fn lemma_field(fields: Seq<(Seq<char>, JsonValue)>, i: int, x: Seq<char>)
    requires
        0 <= i < fields.len(),
    ensures
        fields_written(fields, i) + (seq!['}'] + x) == json_text(fields[i].0) + (seq![':'] + (
        json_written(fields[i].1) + after_field(fields, i, x))),
        is_ended(after_field(fields, i, x)),
        (fields_written(fields, i) + (seq!['}'] + x))[0] == '"',
{
    assert(fields_written(fields, i) + (seq!['}'] + x) =~= json_text(fields[i].0) + (seq![':'] + (
    json_written(fields[i].1) + after_field(fields, i, x))));
    assert(after_field(fields, i, x)[0] == ',' || after_field(fields, i, x)[0] == '}');
}

proof fn lemma_fields_unique(
    p: Seq<(Seq<char>, JsonValue)>,
    i: int,
    x: Seq<char>,
    q: Seq<(Seq<char>, JsonValue)>,
    j: int,
    y: Seq<char>,
)
    requires
        0 <= i <= p.len(),
        0 <= j <= q.len(),
        fields_written(p, i) + (seq!['}'] + x) == fields_written(q, j) + (seq!['}'] + y),
    ensures
        p.skip(i) == q.skip(j),
        x == y,
    decreases p, p.len() - i,
{
    if i < p.len() {
        lemma_field(p, i, x);
    } else {
        assert((fields_written(p, i) + (seq!['}'] + x))[0] == '}');
    }
    if j < q.len() {
        lemma_field(q, j, y);
    } else {
        assert((fields_written(q, j) + (seq!['}'] + y))[0] == '}');
    }
    if i < p.len() && j < q.len() {
        let c = after_field(p, i, x);
        let d = after_field(q, j, y);
        let e = json_written(p[i].1) + c;
        let f = json_written(q[j].1) + d;
        lemma_text_unique(p[i].0, seq![':'] + e, q[j].0, seq![':'] + f);
        lemma_same_start(seq![':'], e, seq![':'], f);
        assert(decreases_to!(p => p[i]));
        lemma_value_unique(p[i].1, c, q[j].1, d);
        assert(c[0] == if i + 1 == p.len() { '}' } else { ',' });
        assert(d[0] == if j + 1 == q.len() { '}' } else { ',' });
        assert(p[i] == q[j]);
        if i + 1 == p.len() {
            lemma_same_start(seq!['}'], x, seq!['}'], y);
            assert(p.skip(i) =~= q.skip(j));
        } else {
            lemma_same_start(
                seq![','],
                fields_written(p, i + 1) + (seq!['}'] + x),
                seq![','],
                fields_written(q, j + 1) + (seq!['}'] + y),
            );
            lemma_fields_unique(p, i + 1, x, q, j + 1, y);
            assert(p.skip(i) =~= seq![p[i]] + p.skip(i + 1));
            assert(q.skip(j) =~= seq![q[j]] + q.skip(j + 1));
        }
    } else {
        assert(i == p.len() && j == q.len());
        assert(p.skip(i) =~= q.skip(j));
        assert(fields_written(p, i) + (seq!['}'] + x) =~= seq!['}'] + x);
        assert(fields_written(q, j) + (seq!['}'] + y) =~= seq!['}'] + y);
        lemma_same_start(seq!['}'], x, seq!['}'], y);
    }
}

/// JSON can be read in one way only: different values are written differently.
pub proof fn law_json_is_unambiguous(a: JsonValue, b: JsonValue)
    requires
        json_written(a) == json_written(b),
    ensures
        a == b,
{
    assert(json_written(a) + Seq::<char>::empty() =~= json_written(a));
    assert(json_written(b) + Seq::<char>::empty() =~= json_written(b));
    lemma_value_unique(a, Seq::empty(), b, Seq::empty());
}

} // verus!
