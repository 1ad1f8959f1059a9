//! JSON values.
//!
//! [`Json`] is the value that every plugin works on; its view is [`JsonView`]. Text is parsed
//! and printed by `serde_json`.

use crate::string_map::{insert_all, strictly_sorted, StringMap};
use crate::text::{decimal, decimal_text, signed_decimal, signed_decimal_text, str_eq};
use serde_json::Value;
use vstd::prelude::*;

verus! {

/// The text of a finite number that is no integer, as `serde_json` prints it.
#[derive(Debug, PartialEq)]
struct Decimal {
    text: String,
}

/// How a number is held.
#[derive(Debug, PartialEq)]
enum NumberKind {
    /// An integer that is not negative.
    PosInt(u64),
    /// A negative integer.
    NegInt(i64),
    /// Any other number.
    Float(Decimal),
}

/// A JSON number.
#[derive(Debug, PartialEq)]
pub struct Number {
    kind: NumberKind,
}

/// What a [`Number`] is.
pub enum NumberView {
    /// An integer that is not negative.
    PosInt(u64),
    /// A negative integer.
    NegInt(i64),
    /// Any other number, by its text.
    Float(Seq<char>),
}

impl View for Number {
    type V = NumberView;

    closed spec fn view(&self) -> NumberView {
        match self.kind {
            NumberKind::PosInt(n) => NumberView::PosInt(n),
            NumberKind::NegInt(n) => NumberView::NegInt(n),
            NumberKind::Float(d) => NumberView::Float(d.text@),
        }
    }
}

/// The text of a number.
pub open spec fn number_text(n: NumberView) -> Seq<char> {
    match n {
        NumberView::PosInt(n) => decimal(n as nat),
        NumberView::NegInt(n) => signed_decimal(n as int),
        NumberView::Float(t) => t,
    }
}

/// The two ways to write zero as a number with a fraction.
pub open spec fn is_zero_text(t: Seq<char>) -> bool {
    t == "0.0"@ || t == "-0.0"@
}

/// Equality of numbers: by kind and value, where the two zeros with a fraction are equal.
pub open spec fn number_same(a: NumberView, b: NumberView) -> bool {
    match (a, b) {
        (NumberView::PosInt(x), NumberView::PosInt(y)) => x == y,
        (NumberView::NegInt(x), NumberView::NegInt(y)) => x == y,
        (NumberView::Float(x), NumberView::Float(y)) => x == y || (is_zero_text(x)
            && is_zero_text(y)),
        _ => false,
    }
}

impl Number {
    /// Only negative integers are held as negative integers.
    #[verifier::type_invariant]
    pub open spec fn proper(&self) -> bool {
        self@ matches NumberView::NegInt(n) ==> n < 0
    }

    /// The number `n`.
    pub fn from_u64(n: u64) -> (r: Number)
        ensures
            r@ == NumberView::PosInt(n),
    {
        Number { kind: NumberKind::PosInt(n) }
    }

    /// The number `n`.
    pub fn from_i64(n: i64) -> (r: Number)
        ensures
            r@ == (if n < 0 {
                NumberView::NegInt(n)
            } else {
                NumberView::PosInt(n as u64)
            }),
    {
        if n < 0 {
            Number { kind: NumberKind::NegInt(n) }
        } else {
            Number { kind: NumberKind::PosInt(n as u64) }
        }
    }

    /// Whether the number is an integer.
    pub fn is_integer(&self) -> (r: bool)
        ensures
            r == !(self@ is Float),
    {
        match &self.kind {
            NumberKind::Float(_) => false,
            _ => true,
        }
    }

    /// The same number again.
    pub fn copy(&self) -> (r: Number)
        ensures
            r@ == self@,
    {
        proof {
            use_type_invariant(self);
        }
        match &self.kind {
            NumberKind::PosInt(n) => Number { kind: NumberKind::PosInt(*n) },
            NumberKind::NegInt(n) => Number { kind: NumberKind::NegInt(*n) },
            NumberKind::Float(d) => Number {
                kind: NumberKind::Float(Decimal { text: d.text.clone() }),
            },
        }
    }

    /// The text of the number.
    pub fn to_text(&self) -> (r: String)
        ensures
            r@ == number_text(self@),
    {
        match &self.kind {
            NumberKind::PosInt(n) => decimal_text(*n as u128),
            NumberKind::NegInt(n) => signed_decimal_text(*n),
            NumberKind::Float(d) => d.text.clone(),
        }
    }

    /// Whether two numbers are equal.
    pub fn same(&self, other: &Number) -> (r: bool)
        ensures
            r == number_same(self@, other@),
    {
        match (&self.kind, &other.kind) {
            (NumberKind::PosInt(x), NumberKind::PosInt(y)) => *x == *y,
            (NumberKind::NegInt(x), NumberKind::NegInt(y)) => *x == *y,
            (NumberKind::Float(x), NumberKind::Float(y)) => {
                let x_zero = str_eq(x.text.as_str(), "0.0") || str_eq(x.text.as_str(), "-0.0");
                let y_zero = str_eq(y.text.as_str(), "0.0") || str_eq(y.text.as_str(), "-0.0");
                str_eq(x.text.as_str(), y.text.as_str()) || (x_zero && y_zero)
            },
            _ => false,
        }
    }
}

/// A JSON value.
#[derive(Debug, PartialEq)]
pub enum Json {
    /// `null`.
    Null,
    /// `true` or `false`.
    Bool(bool),
    /// A number.
    Number(Number),
    /// A string.
    String(String),
    /// An array.
    Array(Vec<Json>),
    /// An object, with its members in key order.
    Object(StringMap<Json>),
}

/// What a [`Json`] value is.
pub enum JsonView {
    /// `null`.
    Null,
    /// `true` or `false`.
    Bool(bool),
    /// A number.
    Number(NumberView),
    /// A string.
    String(Seq<char>),
    /// An array.
    Array(Seq<JsonView>),
    /// An object: its members in key order.
    Object(Seq<(Seq<char>, JsonView)>),
}

/// The view of a value.
pub closed spec fn json_view(j: Json) -> JsonView
    decreases j,
{
    match j {
        Json::Null => JsonView::Null,
        Json::Bool(b) => JsonView::Bool(b),
        Json::Number(n) => JsonView::Number(n@),
        Json::String(s) => JsonView::String(s@),
        Json::Array(v) => JsonView::Array(
            Seq::new(
                v@.len(),
                |i: int|
                    if 0 <= i < v@.len() {
                        json_view(v@[i])
                    } else {
                        JsonView::Null
                    },
            ),
        ),
        Json::Object(m) => {
            proof {
                assert forall|i: int| 0 <= i < m.values().len() implies decreases_to!(
                    j => #[trigger] m.values()[i]) by {
                    StringMap::lemma_value_decreases(m, i);
                    assert(decreases_to!(j => m));
                }
            }
            JsonView::Object(
                Seq::new(
                    m.values().len(),
                    |i: int|
                        if 0 <= i < m.values().len() {
                            (m.keys()[i], json_view(m.values()[i]))
                        } else {
                            (Seq::<char>::empty(), JsonView::Null)
                        },
                ),
            )
        },
    }
}

impl View for Json {
    type V = JsonView;

    open spec fn view(&self) -> JsonView {
        json_view(*self)
    }
}

/// The views of a sequence of values.
pub open spec fn array_view(v: Seq<Json>) -> Seq<JsonView> {
    Seq::new(v.len(), |i: int| v[i]@)
}

/// The members of an object, in key order.
pub open spec fn object_view(m: StringMap<Json>) -> Seq<(Seq<char>, JsonView)> {
    Seq::new(m.values().len(), |i: int| (m.keys()[i], m.values()[i]@))
}

/// What the view of each kind of value is.
pub broadcast proof fn lemma_json_view(j: Json)
    ensures
        #[trigger] json_view(j) == match j {
            Json::Null => JsonView::Null,
            Json::Bool(b) => JsonView::Bool(b),
            Json::Number(n) => JsonView::Number(n@),
            Json::String(s) => JsonView::String(s@),
            Json::Array(v) => JsonView::Array(array_view(v@)),
            Json::Object(m) => JsonView::Object(object_view(m)),
        },
{
    match j {
        Json::Array(v) => {
            assert(json_view(j)->Array_0 =~= array_view(v@));
        },
        Json::Object(m) => {
            assert(json_view(j)->Object_0 =~= object_view(m));
        },
        _ => {},
    }
}

/// The keys of members.
pub open spec fn member_keys(m: Seq<(Seq<char>, JsonView)>) -> Seq<Seq<char>> {
    Seq::new(m.len(), |i: int| m[i].0)
}

/// The position of the member `key`.
pub open spec fn member_index(m: Seq<(Seq<char>, JsonView)>, key: Seq<char>) -> int {
    choose|i: int| 0 <= i < m.len() && (#[trigger] m[i]).0 == key
}

/// The value of the member `key`.
pub open spec fn member(m: Seq<(Seq<char>, JsonView)>, key: Seq<char>) -> Option<JsonView> {
    if exists|i: int| 0 <= i < m.len() && (#[trigger] m[i]).0 == key {
        Some(m[member_index(m, key)].1)
    } else {
        None
    }
}

/// The value of the member `key` of an object; other values have no members.
pub open spec fn json_member(j: JsonView, key: Seq<char>) -> Option<JsonView> {
    match j {
        JsonView::Object(m) => member(m, key),
        _ => None,
    }
}

/// In strictly sorted members, a member is found by its position.
pub proof fn lemma_member_at(m: Seq<(Seq<char>, JsonView)>, i: int)
    requires
        strictly_sorted(member_keys(m)),
        0 <= i < m.len(),
    ensures
        member(m, m[i].0) == Some(m[i].1),
{
    let key = m[i].0;
    let j = member_index(m, key);
    assert(m[i].0 == key && m[j].0 == key);
    assert(member_keys(m)[i] == member_keys(m)[j]);
    crate::string_map::lemma_strictly_sorted_distinct(member_keys(m), i, j);
}

/// Equality of values: numbers by value, arrays by position, objects by member.
pub open spec fn json_same(a: JsonView, b: JsonView) -> bool
    decreases a,
{
    match (a, b) {
        (JsonView::Null, JsonView::Null) => true,
        (JsonView::Bool(x), JsonView::Bool(y)) => x == y,
        (JsonView::Number(x), JsonView::Number(y)) => number_same(x, y),
        (JsonView::String(x), JsonView::String(y)) => x == y,
        (JsonView::Array(x), JsonView::Array(y)) => {
            &&& x.len() == y.len()
            &&& forall|i: int| 0 <= i < x.len() ==> json_same(#[trigger] x[i], y[i])
        },
        (JsonView::Object(x), JsonView::Object(y)) => members_same(x, y),
        _ => false,
    }
}

/// Equality of objects, member by member in key order.
pub open spec fn members_same(
    x: Seq<(Seq<char>, JsonView)>,
    y: Seq<(Seq<char>, JsonView)>,
) -> bool
    decreases x,
{
    &&& x.len() == y.len()
    &&& forall|i: int|
        0 <= i < x.len() ==> (#[trigger] x[i]).0 == y[i].0 && json_same(x[i].1, y[i].1)
}

/// The same values again.
pub fn copy_array(v: &Vec<Json>) -> (r: Vec<Json>)
    ensures
        array_view(r@) == array_view(v@),
    decreases v,
{
    let mut r: Vec<Json> = Vec::new();
    let mut i: usize = 0;
    while i < v.len()
        invariant
            i <= v@.len(),
            r@.len() == i,
            forall|k: int| 0 <= k < i ==> (#[trigger] r@[k])@ == v@[k]@,
        decreases v@.len() - i,
    {
        proof {
            assert(decreases_to!(v => v@));
            assert(decreases_to!(v@ => v@[i as int]));
        }
        let item = v[i].copy();
        r.push(item);
        i = i + 1;
    }
    assert(array_view(r@) =~= array_view(v@));
    r
}

/// The same object again.
pub fn copy_object(m: &StringMap<Json>) -> (r: StringMap<Json>)
    ensures
        object_view(r) == object_view(*m),
    decreases m,
{
    let mut entries: Vec<(String, Json)> = Vec::new();
    let mut i: usize = 0;
    proof {
        use_type_invariant(m);
    }
    let n: usize = m.len();
    while i < n
        invariant
            m.ordered(),
            n == m.keys().len(),
            i <= n,
            entries@.len() == i,
            forall|k: int|
                0 <= k < i ==> (#[trigger] entries@[k]).0@ == m.keys()[k] && entries@[k].1@
                    == m.values()[k]@,
        decreases n - i,
    {
        proof {
            StringMap::lemma_value_decreases(*m, i as int);
        }
        let value = m.value_at(i).copy();
        let key = m.key_at(i).clone();
        entries.push((key, value));
        i = i + 1;
    }
    proof {
        assert(Seq::new(entries@.len(), |k: int| entries@[k].0@) =~= m.keys());
    }
    let r = StringMap::from_entries(entries);
    assert(object_view(r) =~= object_view(*m));
    r
}

/// Whether two arrays are equal.
fn same_array(a: &Vec<Json>, b: &Vec<Json>) -> (r: bool)
    ensures
        r == json_same(JsonView::Array(array_view(a@)), JsonView::Array(array_view(b@))),
    decreases a,
{
    if a.len() != b.len() {
        return false;
    }
    let ghost x = array_view(a@);
    let ghost y = array_view(b@);
    let mut i: usize = 0;
    while i < a.len()
        invariant
            a@.len() == b@.len(),
            i <= a@.len(),
            x == array_view(a@),
            y == array_view(b@),
            forall|k: int| 0 <= k < i ==> json_same(#[trigger] x[k], y[k]),
        decreases a@.len() - i,
    {
        proof {
            assert(decreases_to!(a => a@));
            assert(decreases_to!(a@ => a@[i as int]));
        }
        if !a[i].same(&b[i]) {
            assert(!json_same(x[i as int], y[i as int]));
            return false;
        }
        i = i + 1;
    }
    true
}

/// Whether two objects are equal.
pub fn same_object(a: &StringMap<Json>, b: &StringMap<Json>) -> (r: bool)
    ensures
        r == members_same(object_view(*a), object_view(*b)),
    decreases a,
{
    proof {
        use_type_invariant(a);
        use_type_invariant(b);
    }
    if a.len() != b.len() {
        return false;
    }
    let ghost x = object_view(*a);
    let ghost y = object_view(*b);
    let n: usize = a.len();
    let mut i: usize = 0;
    while i < n
        invariant
            a.ordered(),
            b.ordered(),
            n == a.keys().len(),
            n == b.keys().len(),
            i <= n,
            x == object_view(*a),
            y == object_view(*b),
            forall|k: int|
                0 <= k < i ==> (#[trigger] x[k]).0 == y[k].0 && json_same(x[k].1, y[k].1),
        decreases n - i,
    {
        proof {
            StringMap::lemma_value_decreases(*a, i as int);
        }
        let same_key = str_eq(a.key_at(i).as_str(), b.key_at(i).as_str());
        if !same_key || !a.value_at(i).same(b.value_at(i)) {
            assert(!(x[i as int].0 == y[i as int].0 && json_same(x[i as int].1, y[i as int].1)));
            return false;
        }
        i = i + 1;
    }
    true
}

/// The members of an object stand in strictly increasing key order.
pub proof fn lemma_object_sorted(m: StringMap<Json>)
    requires
        m.ordered(),
    ensures
        strictly_sorted(member_keys(object_view(m))),
        member_keys(object_view(m)) == m.keys(),
{
    assert(member_keys(object_view(m)) =~= m.keys());
}

/// Looking a key up in an object is looking it up among the members.
pub proof fn lemma_object_member(m: StringMap<Json>, key: Seq<char>)
    requires
        m.ordered(),
    ensures
        member(object_view(m), key) == (if m@.dom().contains(key) {
            Some(m@[key]@)
        } else {
            None
        }),
{
    lemma_object_sorted(m);
    if m@.dom().contains(key) {
        let i = m.keys().index_of(key);
        assert(m.keys()[i] == key);
        StringMap::lemma_view_at(m, i);
        lemma_member_at(object_view(m), i);
        assert(object_view(m)[i].0 == key);
    } else {
        assert forall|i: int| 0 <= i < object_view(m).len() implies (#[trigger] object_view(
            m,
        )[i]).0 != key by {
            if object_view(m)[i].0 == key {
                assert(m.keys().contains(m.keys()[i]));
            }
        }
    }
}

impl Json {
    /// The same value again.
    pub fn copy(&self) -> (r: Json)
        ensures
            r@ == self@,
        decreases self,
    {
        broadcast use lemma_json_view;

        match self {
            Json::Null => Json::Null,
            Json::Bool(b) => Json::Bool(*b),
            Json::Number(n) => Json::Number(n.copy()),
            Json::String(s) => Json::String(s.clone()),
            Json::Array(v) => Json::Array(copy_array(v)),
            Json::Object(m) => Json::Object(copy_object(m)),
        }
    }

    /// Whether two values are equal.
    pub fn same(&self, other: &Json) -> (r: bool)
        ensures
            r == json_same(self@, other@),
        decreases self,
    {
        broadcast use lemma_json_view;

        match (self, other) {
            (Json::Null, Json::Null) => true,
            (Json::Bool(x), Json::Bool(y)) => *x == *y,
            (Json::Number(x), Json::Number(y)) => x.same(y),
            (Json::String(x), Json::String(y)) => str_eq(x.as_str(), y.as_str()),
            (Json::Array(x), Json::Array(y)) => same_array(x, y),
            (Json::Object(x), Json::Object(y)) => same_object(x, y),
            _ => false,
        }
    }

    /// The member `key`, where the value is an object that has one.
    pub fn get(&self, key: &str) -> (r: Option<&Json>)
        ensures
            r is Some <==> json_member(self@, key@) is Some,
            r matches Some(v) ==> json_member(self@, key@) == Some(v@),
    {
        broadcast use lemma_json_view;

        match self {
            Json::Object(m) => {
                proof {
                    use_type_invariant(m);
                    lemma_object_member(*m, key@);
                }
                m.get(key)
            },
            _ => None,
        }
    }

    /// The text, where the value is a string.
    pub fn as_str(&self) -> (r: Option<&str>)
        ensures
            r is Some <==> self@ is String,
            r matches Some(s) ==> self@ == JsonView::String(s@),
    {
        broadcast use lemma_json_view;

        match self {
            Json::String(s) => Some(s.as_str()),
            _ => None,
        }
    }
}

impl Clone for Json {
    fn clone(&self) -> (r: Json)
        ensures
            r@ == self@,
    {
        self.copy()
    }
}

impl Clone for StringMap<Json> {
    fn clone(&self) -> (r: StringMap<Json>)
        ensures
            object_view(r) == object_view(*self),
    {
        copy_object(self)
    }
}

/// `serde_json::Value`, the value that `serde_json` parses and prints.
#[verifier::external_type_specification]
#[verifier::external_body]
pub struct ExValue(serde_json::Value);

/// The JSON value that a `serde_json::Value` holds.
pub uninterp spec fn value_content(v: serde_json::Value) -> JsonView;

/// The compact text that `serde_json::to_string` gives a value.
pub uninterp spec fn json_text(j: JsonView) -> Seq<char>;

/// The value that `serde_json::from_str` reads from a text, where the text is valid JSON.
pub uninterp spec fn json_parse(text: Seq<char>) -> Option<JsonView>;

/// The `serde_json::Value` for a number: an integer by `Value::from`, and any other number by
/// `Number::from_f64` of the double that its text reads as. Such a text was printed by
/// `serde_json` for a finite double, and reads as that double.
#[verifier::external_body]
fn number_to_value(n: &Number) -> (r: Value)
    ensures
        value_content(r) == JsonView::Number(n@),
{
    match &n.kind {
        NumberKind::PosInt(n) => Value::from(*n),
        NumberKind::NegInt(n) => Value::from(*n),
        NumberKind::Float(d) => Value::from(d.text.parse().ok().and_then(serde_json::Number::from_f64)),
    }
}

/// The `serde_json::Value` for a value, made variant by variant: the same kind of value, with
/// the same text, number and members.
#[verifier::external_body]
pub(crate) fn to_value(j: &Json) -> (r: Value)
    ensures
        value_content(r) == j@,
{
    match j {
        Json::Null => Value::Null,
        Json::Bool(b) => Value::Bool(*b),
        Json::Number(n) => number_to_value(n),
        Json::String(s) => Value::String(s.clone()),
        Json::Array(v) => Value::Array(v.iter().map(to_value).collect()),
        Json::Object(m) => m.entries().iter().map(|e| (e.0.clone(), to_value(&e.1))).collect(),
    }
}

/// The number that a `serde_json::Value` holds: an integer where `as_u64` or `as_i64` gives
/// one, and else the number by the text that `serde_json` prints for it.
#[verifier::external_body]
fn value_to_number(v: &Value) -> (r: Number)
    requires
        value_content(*v) is Number,
    ensures
        value_content(*v) == JsonView::Number(r@),
{
    match (v.as_u64(), v.as_i64()) {
        (Some(n), _) => Number { kind: NumberKind::PosInt(n) },
        (None, Some(n)) => Number { kind: NumberKind::NegInt(n) },
        (None, None) => Number { kind: NumberKind::Float(Decimal { text: v.to_string() }) },
    }
}

/// The value that a `serde_json::Value` holds, taken variant by variant.
#[verifier::external_body]
pub(crate) fn from_value(v: &Value) -> (r: Json)
    ensures
        r@ == value_content(*v),
{
    match v {
        Value::Null => Json::Null,
        Value::Bool(b) => Json::Bool(*b),
        Value::Number(_) => Json::Number(value_to_number(v)),
        Value::String(s) => Json::String(s.clone()),
        Value::Array(a) => Json::Array(a.iter().map(from_value).collect()),
        Value::Object(m) => Json::Object(StringMap::from_pairs(m.iter().map(|e| (e.0.clone(), from_value(e.1))).collect())),
    }
}

/// Prints a value with `serde_json::to_string`, which names the text: it depends on the value
/// alone, and printing a `serde_json::Value` does not fail.
#[verifier::external_body]
fn print_value(v: &Value) -> (r: String)
    ensures
        r@ == json_text(value_content(*v)),
{
    serde_json::to_string(v).unwrap_or_default()
}

/// Parses a text with `serde_json::from_str`: whether it is JSON, and which value it is,
/// depends on the text alone.
#[verifier::external_body]
fn parse_value(text: &str) -> (r: Option<Value>)
    ensures
        r is Some <==> json_parse(text@) is Some,
        r matches Some(v) ==> json_parse(text@) == Some(value_content(v)),
{
    serde_json::from_str(text).ok()
}

/// The compact JSON text of an object.
pub fn object_text(m: &StringMap<Json>) -> (r: String)
    ensures
        r@ == json_text(JsonView::Object(object_view(*m))),
{
    broadcast use lemma_json_view;

    let object = Json::Object(copy_object(m));
    object.to_text()
}

impl Json {
    /// The compact JSON text of the value.
    pub fn to_text(&self) -> (r: String)
        ensures
            r@ == json_text(self@),
    {
        let value = to_value(self);
        print_value(&value)
    }

    /// The value that `text` is, or `None` where `text` is not JSON.
    pub fn parse(text: &str) -> (r: Option<Json>)
        ensures
            r is Some <==> json_parse(text@) is Some,
            r matches Some(j) ==> json_parse(text@) == Some(j@),
    {
        match parse_value(text) {
            Some(v) => Some(from_value(&v)),
            None => None,
        }
    }
}

/// The members that pairs come to; of two pairs with one key the later one counts.
pub open spec fn pairs_map(pairs: Seq<(Seq<char>, JsonView)>) -> Map<Seq<char>, JsonView>
    decreases pairs.len(),
{
    if pairs.len() == 0 {
        Map::empty()
    } else {
        pairs_map(pairs.drop_last()).insert(pairs.last().0, pairs.last().1)
    }
}

/// Members in key order that are those of `map`.
pub open spec fn is_members(
    m: Seq<(Seq<char>, JsonView)>,
    map: Map<Seq<char>, JsonView>,
) -> bool {
    &&& strictly_sorted(member_keys(m))
    &&& forall|k: Seq<char>| #[trigger] member_keys(m).contains(k) <==> map.dom().contains(k)
    &&& forall|i: int| 0 <= i < m.len() ==> map[(#[trigger] m[i]).0] == m[i].1
}

/// The object with the members that pairs come to.
pub open spec fn object_of(pairs: Seq<(Seq<char>, JsonView)>) -> JsonView {
    JsonView::Object(
        choose|m: Seq<(Seq<char>, JsonView)>| is_members(m, pairs_map(pairs)),
    )
}

/// The members of a map in key order are the only ones.
pub proof fn lemma_members_unique(
    a: Seq<(Seq<char>, JsonView)>,
    b: Seq<(Seq<char>, JsonView)>,
    map: Map<Seq<char>, JsonView>,
)
    requires
        is_members(a, map),
        is_members(b, map),
    ensures
        a == b,
{
    let ka = member_keys(a);
    let kb = member_keys(b);
    assert forall|k: Seq<char>| #[trigger] ka.contains(k) <==> kb.contains(k) by {
        assert(ka.contains(k) <==> map.dom().contains(k));
        assert(kb.contains(k) <==> map.dom().contains(k));
    }
    crate::string_map::lemma_strictly_sorted_unique(ka, kb);
    assert(ka.len() == a.len() && kb.len() == b.len());
    assert forall|i: int| 0 <= i < a.len() implies a[i] == b[i] by {
        assert(ka[i] == kb[i]);
        assert(a[i].0 == b[i].0);
    }
    assert(a =~= b);
}

/// The views of pairs.
pub open spec fn pair_views(pairs: Seq<(String, Json)>) -> Seq<(Seq<char>, JsonView)> {
    Seq::new(pairs.len(), |i: int| (pairs[i].0@, pairs[i].1@))
}

/// Putting pairs in gives the members that they come to.
proof fn lemma_pairs_map(pairs: Seq<(String, Json)>)
    ensures
        forall|k: Seq<char>| #[trigger]
            insert_all(pairs).dom().contains(k) <==> pairs_map(pair_views(pairs)).dom().contains(k),
        forall|k: Seq<char>| #[trigger]
            insert_all(pairs).dom().contains(k) ==> insert_all(pairs)[k]@ == pairs_map(
                pair_views(pairs),
            )[k],
    decreases pairs.len(),
{
    if pairs.len() > 0 {
        lemma_pairs_map(pairs.drop_last());
        assert(pair_views(pairs).drop_last() =~= pair_views(pairs.drop_last()));
        assert(pair_views(pairs).last() == (pairs.last().0@, pairs.last().1@));
        let before = insert_all(pairs.drop_last());
        let after = pairs_map(pair_views(pairs.drop_last()));
        assert(insert_all(pairs) == before.insert(pairs.last().0@, pairs.last().1));
        assert(pairs_map(pair_views(pairs)) == after.insert(pairs.last().0@, pairs.last().1@));
        assert forall|k: Seq<char>| #[trigger]
            insert_all(pairs).dom().contains(k) <==> pairs_map(pair_views(pairs)).dom().contains(
                k,
            ) by {
            assert(before.dom().contains(k) <==> after.dom().contains(k));
        }
        assert forall|k: Seq<char>| #[trigger]
            insert_all(pairs).dom().contains(k) implies insert_all(pairs)[k]@ == pairs_map(
            pair_views(pairs),
        )[k] by {
            if before.dom().contains(k) {
                assert(before[k]@ == after[k]);
            }
        }
    }
}

impl Json {
    /// The object with the given members; of two with one key the later one counts.
    pub fn object(pairs: Vec<(String, Json)>) -> (r: Json)
        ensures
            r@ == object_of(pair_views(pairs@)),
    {
        broadcast use lemma_json_view;

        let ghost before = pairs@;
        let map = StringMap::from_pairs(pairs);
        proof {
            use_type_invariant(&map);
            let m = object_view(map);
            let goal = pairs_map(pair_views(before));
            lemma_pairs_map(before);
            assert(member_keys(m) =~= map.keys());
            assert forall|k: Seq<char>| #[trigger]
                member_keys(m).contains(k) <==> goal.dom().contains(k) by {
                assert(map@.dom().contains(k) <==> map.keys().contains(k));
                assert(insert_all(before).dom().contains(k) <==> goal.dom().contains(k));
            }
            assert forall|i: int| 0 <= i < m.len() implies goal[(#[trigger] m[i]).0] == m[i].1 by {
                StringMap::lemma_view_at(map, i);
                assert(insert_all(before).dom().contains(m[i].0));
            }
            assert(is_members(m, goal));
            let chosen = choose|m: Seq<(Seq<char>, JsonView)>| is_members(m, goal);
            lemma_members_unique(m, chosen, goal);
        }
        Json::Object(map)
    }
}

} // verus!
