//! What holds of the ids of entities and relationships.

use crate::bytes::lemma_encode_concat;
use crate::json::{number_text, JsonView};
use crate::plugins::entity_extraction::{
    canonical_items, canonical_members, canonical_object, canonical_value, entity_id_text,
    length_prefixed, relationship_id_text,
};
use crate::text::{decimal, lemma_decimal_digits, lemma_decimal_injective};
use vstd::prelude::*;
use vstd::utf8::{encode_utf8, encode_utf8_decode_utf8};

verus! {

/// Two values are the same but for how their numbers are held: numbers with one text are alike.
pub open spec fn alike(a: JsonView, b: JsonView) -> bool
    decreases a,
{
    match (a, b) {
        (JsonView::Null, JsonView::Null) => true,
        (JsonView::Bool(x), JsonView::Bool(y)) => x == y,
        (JsonView::Number(x), JsonView::Number(y)) => number_text(x) == number_text(y),
        (JsonView::String(x), JsonView::String(y)) => x == y,
        (JsonView::Array(x), JsonView::Array(y)) => {
            &&& x.len() == y.len()
            &&& forall|i: int| 0 <= i < x.len() ==> alike(#[trigger] x[i], y[i])
        },
        (JsonView::Object(x), JsonView::Object(y)) => members_alike(x, y),
        _ => false,
    }
}

/// Two objects have the same keys, and values that are alike.
pub open spec fn members_alike(
    x: Seq<(Seq<char>, JsonView)>,
    y: Seq<(Seq<char>, JsonView)>,
) -> bool
    decreases x,
{
    &&& x.len() == y.len()
    &&& forall|i: int|
        0 <= i < x.len() ==> (#[trigger] x[i]).0 == y[i].0 && alike(x[i].1, y[i].1)
}

/// A common start can be taken away.
proof fn lemma_same_start(start: Seq<char>, x: Seq<char>, y: Seq<char>)
    requires
        start + x == start + y,
    ensures
        x == y,
{
    assert((start + x).skip(start.len() as int) =~= x);
    assert((start + y).skip(start.len() as int) =~= y);
}

/// A number before a colon can be read back.
proof fn lemma_number_first(n: nat, m: nat, x: Seq<char>, y: Seq<char>)
    requires
        decimal(n) + (":"@ + x) == decimal(m) + (":"@ + y),
    ensures
        n == m,
        x == y,
{
    reveal_strlit(":");
    let s = decimal(n) + (":"@ + x);
    let t = decimal(m) + (":"@ + y);
    let i = decimal(n).len() as int;
    let j = decimal(m).len() as int;
    assert(s[i] == ':');
    assert(t[j] == ':');
    if i < j {
        lemma_decimal_digits(m, i);
        assert(t[i] == decimal(m)[i]);
    } else if j < i {
        lemma_decimal_digits(n, j);
        assert(s[j] == decimal(n)[j]);
    }
    assert(s.take(i) =~= decimal(n));
    assert(t.take(j) =~= decimal(m));
    lemma_decimal_injective(n, m);
    assert(s.skip(i + 1) =~= x);
    assert(t.skip(j + 1) =~= y);
}

/// A text has bytes where it has characters.
proof fn lemma_bytes_of_text(t: Seq<char>)
    requires
        t.len() > 0,
    ensures
        encode_utf8(t).len() > 0,
{
    encode_utf8_decode_utf8(t);
    if encode_utf8(t).len() == 0 {
        assert(encode_utf8(t) =~= Seq::<u8>::empty());
        encode_utf8_decode_utf8(Seq::<char>::empty());
        assert(encode_utf8(Seq::<char>::empty()) =~= Seq::<u8>::empty());
    }
}

/// Of two starts of one text that take as many bytes, the one is not longer than the other.
proof fn lemma_start_not_longer(a: Seq<char>, b: Seq<char>, x: Seq<char>, y: Seq<char>)
    requires
        a + x == b + y,
        encode_utf8(a).len() == encode_utf8(b).len(),
    ensures
        a.len() >= b.len(),
{
    if a.len() < b.len() {
        let rest = b.skip(a.len() as int);
        assert forall|i: int| 0 <= i < a.len() implies a[i] == b[i] by {
            assert((a + x)[i] == a[i]);
            assert((b + y)[i] == b[i]);
        }
        assert(b =~= a + rest);
        lemma_encode_concat(a, rest);
        lemma_bytes_of_text(rest);
    }
}

/// A text with its length before it can be read back.
proof fn lemma_text_first(a: Seq<char>, b: Seq<char>, x: Seq<char>, y: Seq<char>)
    requires
        length_prefixed(a) + x == length_prefixed(b) + y,
    ensures
        a == b,
        x == y,
{
    let n = encode_utf8(a).len();
    let m = encode_utf8(b).len();
    assert(length_prefixed(a) + x =~= decimal(n) + (":"@ + (a + x)));
    assert(length_prefixed(b) + y =~= decimal(m) + (":"@ + (b + y)));
    lemma_number_first(n, m, a + x, b + y);
    lemma_start_not_longer(a, b, x, y);
    lemma_start_not_longer(b, a, y, x);
    assert((a + x).take(a.len() as int) =~= a);
    assert((b + y).take(b.len() as int) =~= b);
    lemma_same_start(a, x, y);
}

/// How the text of a value starts.
spec fn kind_mark(j: JsonView) -> (char, char) {
    match j {
        JsonView::Null => ('n', 'l'),
        JsonView::Bool(b) => if b {
            ('t', 'u')
        } else {
            ('f', 'l')
        },
        JsonView::Number(_) => ('n', 'm'),
        JsonView::String(_) => ('s', 'r'),
        JsonView::Array(_) => ('a', 'r'),
        JsonView::Object(_) => ('o', 'j'),
    }
}

/// The first and the third character tell the kind of a value.
proof fn lemma_kind_mark(j: JsonView, x: Seq<char>)
    ensures
        (canonical_value(j) + x).len() >= 3,
        (canonical_value(j) + x)[0] == kind_mark(j).0,
        (canonical_value(j) + x)[2] == kind_mark(j).1,
{
    reveal_strlit("null");
    reveal_strlit("true");
    reveal_strlit("false");
    reveal_strlit("number:");
    reveal_strlit("string:");
    reveal_strlit("array:");
    reveal_strlit("object:");
}

/// A tag, a text, and what follows.
proof fn lemma_tagged(tag: Seq<char>, t: Seq<char>, x: Seq<char>)
    ensures
        tag + t + x == tag + (t + x),
{
    assert(tag + t + x =~= tag + (t + x));
}

/// A tag, a count, what is counted, and what follows.
proof fn lemma_counted(tag: Seq<char>, n: nat, t: Seq<char>, x: Seq<char>)
    ensures
        tag + decimal(n) + ":"@ + t + x == tag + (decimal(n) + (":"@ + (t + x))),
{
    assert(tag + decimal(n) + ":"@ + t + x =~= tag + (decimal(n) + (":"@ + (t + x))));
}

/// Tagged texts can be read back.
proof fn lemma_tagged_first(
    tag: Seq<char>,
    p: Seq<char>,
    q: Seq<char>,
    x: Seq<char>,
    y: Seq<char>,
)
    requires
        tag + length_prefixed(p) + x == tag + length_prefixed(q) + y,
    ensures
        p == q,
        x == y,
{
    lemma_tagged(tag, length_prefixed(p), x);
    lemma_tagged(tag, length_prefixed(q), y);
    lemma_same_start(tag, length_prefixed(p) + x, length_prefixed(q) + y);
    lemma_text_first(p, q, x, y);
}

/// Tagged counts can be read back.
proof fn lemma_counted_first(
    tag: Seq<char>,
    n: nat,
    m: nat,
    t: Seq<char>,
    u: Seq<char>,
    x: Seq<char>,
    y: Seq<char>,
)
    requires
        tag + decimal(n) + ":"@ + t + x == tag + decimal(m) + ":"@ + u + y,
    ensures
        n == m,
        t + x == u + y,
{
    lemma_counted(tag, n, t, x);
    lemma_counted(tag, m, u, y);
    lemma_same_start(tag, decimal(n) + (":"@ + (t + x)), decimal(m) + (":"@ + (u + y)));
    lemma_number_first(n, m, t + x, u + y);
}

/// Values with one text are of one kind.
proof fn lemma_same_kind(a: JsonView, b: JsonView, x: Seq<char>, y: Seq<char>)
    requires
        canonical_value(a) + x == canonical_value(b) + y,
    ensures
        kind_mark(a) == kind_mark(b),
{
    lemma_kind_mark(a, x);
    lemma_kind_mark(b, y);
}

/// A value can be read back, as far as its numbers' texts go.
proof fn lemma_value_first(a: JsonView, b: JsonView, x: Seq<char>, y: Seq<char>)
    requires
        canonical_value(a) + x == canonical_value(b) + y,
    ensures
        alike(a, b),
        x == y,
    decreases a,
{
    lemma_same_kind(a, b, x, y);
    match a {
        JsonView::Null => {
            lemma_same_start("null"@, x, y);
        },
        JsonView::Bool(p) => {
            lemma_same_start(canonical_value(a), x, y);
        },
        JsonView::Number(p) => {
            let q = b->Number_0;
            lemma_tagged_first("number:"@, number_text(p), number_text(q), x, y);
        },
        JsonView::String(p) => {
            let q = b->String_0;
            lemma_tagged_first("string:"@, p, q, x, y);
        },
        JsonView::Array(v) => {
            let w = b->Array_0;
            lemma_counted_first(
                "array:"@,
                v.len(),
                w.len(),
                canonical_items(v),
                canonical_items(w),
                x,
                y,
            );
            lemma_items_first(v, w, x, y);
        },
        JsonView::Object(v) => {
            let w = b->Object_0;
            lemma_counted_first(
                "object:"@,
                v.len(),
                w.len(),
                canonical_members(v),
                canonical_members(w),
                x,
                y,
            );
            lemma_members_first(v, w, x, y);
        },
    }
}

/// As many values can be read back.
proof fn lemma_items_first(v: Seq<JsonView>, w: Seq<JsonView>, x: Seq<char>, y: Seq<char>)
    requires
        v.len() == w.len(),
        canonical_items(v) + x == canonical_items(w) + y,
    ensures
        forall|i: int| 0 <= i < v.len() ==> alike(#[trigger] v[i], w[i]),
        x == y,
    decreases v,
{
    if v.len() == 0 {
        lemma_same_start(canonical_items(v), x, y);
    } else {
        let n = v.len() - 1;
        let xs = canonical_value(v[n]) + x;
        let ys = canonical_value(w[n]) + y;
        assert(canonical_items(v) + x =~= canonical_items(v.drop_last()) + xs);
        assert(canonical_items(w) + y =~= canonical_items(w.drop_last()) + ys);
        lemma_items_first(v.drop_last(), w.drop_last(), xs, ys);
        lemma_value_first(v[n], w[n], x, y);
        assert forall|i: int| 0 <= i < v.len() implies alike(#[trigger] v[i], w[i]) by {
            if i < n {
                assert(alike(v.drop_last()[i], w.drop_last()[i]));
            }
        }
    }
}

/// As many members can be read back.
proof fn lemma_members_first(
    v: Seq<(Seq<char>, JsonView)>,
    w: Seq<(Seq<char>, JsonView)>,
    x: Seq<char>,
    y: Seq<char>,
)
    requires
        v.len() == w.len(),
        canonical_members(v) + x == canonical_members(w) + y,
    ensures
        members_alike(v, w),
        x == y,
    decreases v,
{
    if v.len() == 0 {
        lemma_same_start(canonical_members(v), x, y);
    } else {
        let n = v.len() - 1;
        let xv = canonical_value(v[n].1) + x;
        let yw = canonical_value(w[n].1) + y;
        let xs = length_prefixed(v[n].0) + xv;
        let ys = length_prefixed(w[n].0) + yw;
        assert(canonical_members(v) + x =~= canonical_members(v.drop_last()) + xs);
        assert(canonical_members(w) + y =~= canonical_members(w.drop_last()) + ys);
        lemma_members_first(v.drop_last(), w.drop_last(), xs, ys);
        lemma_text_first(v[n].0, w[n].0, xv, yw);
        lemma_value_first(v[n].1, w[n].1, x, y);
        assert forall|i: int| 0 <= i < v.len() implies (#[trigger] v[i]).0 == w[i].0 && alike(
            v[i].1,
            w[i].1,
        ) by {
            if i < n {
                assert(v.drop_last()[i] == v[i] && w.drop_last()[i] == w[i]);
            }
        }
    }
}

/// An object can be read back.
proof fn lemma_object_first(
    v: Seq<(Seq<char>, JsonView)>,
    w: Seq<(Seq<char>, JsonView)>,
)
    requires
        canonical_object(v) == canonical_object(w),
    ensures
        members_alike(v, w),
{
    let none = Seq::<char>::empty();
    let a = JsonView::Object(v);
    let b = JsonView::Object(w);
    assert(canonical_value(a) + none =~= canonical_object(v));
    assert(canonical_value(b) + none =~= canonical_object(w));
    lemma_value_first(a, b, none, none);
}

/// Two entities share an id only where they share their table and their identity, numbers taken
/// by their texts.
pub proof fn law_entity_ids_tell_apart(
    table: Seq<char>,
    identity: Seq<(Seq<char>, JsonView)>,
    other_table: Seq<char>,
    other_identity: Seq<(Seq<char>, JsonView)>,
)
    requires
        entity_id_text(table, identity) == entity_id_text(other_table, other_identity),
    ensures
        table == other_table,
        members_alike(identity, other_identity),
{
    let x = ":"@ + canonical_object(identity);
    let y = ":"@ + canonical_object(other_identity);
    assert(entity_id_text(table, identity) =~= "entity:"@ + (length_prefixed(table) + x));
    assert(entity_id_text(other_table, other_identity) =~= "entity:"@ + (length_prefixed(
        other_table,
    ) + y));
    lemma_same_start("entity:"@, length_prefixed(table) + x, length_prefixed(other_table) + y);
    lemma_text_first(table, other_table, x, y);
    lemma_same_start(":"@, canonical_object(identity), canonical_object(other_identity));
    lemma_object_first(identity, other_identity);
}

/// Two relationships share an id only where they share their table, their ends and their
/// properties, numbers taken by their texts.
pub proof fn law_relationship_ids_tell_apart(
    table: Seq<char>,
    from: Seq<char>,
    to: Seq<char>,
    properties: Seq<(Seq<char>, JsonView)>,
    other_table: Seq<char>,
    other_from: Seq<char>,
    other_to: Seq<char>,
    other_properties: Seq<(Seq<char>, JsonView)>,
)
    requires
        relationship_id_text(table, from, to, properties) == relationship_id_text(
            other_table,
            other_from,
            other_to,
            other_properties,
        ),
    ensures
        table == other_table,
        from == other_from,
        to == other_to,
        members_alike(properties, other_properties),
{
    let x2 = length_prefixed(to) + canonical_object(properties);
    let y2 = length_prefixed(other_to) + canonical_object(other_properties);
    let x1 = length_prefixed(from) + x2;
    let y1 = length_prefixed(other_from) + y2;
    assert(relationship_id_text(table, from, to, properties) =~= "relationship:"@
        + (length_prefixed(table) + x1));
    assert(relationship_id_text(other_table, other_from, other_to, other_properties)
        =~= "relationship:"@ + (length_prefixed(other_table) + y1));
    lemma_same_start(
        "relationship:"@,
        length_prefixed(table) + x1,
        length_prefixed(other_table) + y1,
    );
    lemma_text_first(table, other_table, x1, y1);
    lemma_text_first(from, other_from, x2, y2);
    lemma_text_first(
        to,
        other_to,
        canonical_object(properties),
        canonical_object(other_properties),
    );
    lemma_object_first(properties, other_properties);
}

} // verus!
