//! The JSON text on the wire, through `serde_json`.
use vstd::prelude::*;
use crate::json::{
    json_view, json_views, lemma_object_view, numerals_alike, object_view, Json, JsonView, Numeral,
};
use crate::strmap::{entries_map, has_key, key_index, lemma_entries_map, sorted_keys, StrMap};
use serde_json::{Number, Value};

verus! {

/// `serde_json::Number`, a JSON number.
#[verifier::external_type_specification]
#[verifier::external_body]
pub struct ExNumber(serde_json::Number);

/// The number that a `serde_json::Number` holds: an integer between `i64::MIN`
/// and `u64::MAX`, or the bits of a finite 64-bit floating-point number.
pub uninterp spec fn numeral(n: Number) -> Numeral;

/// `Number::from::<u64>`, which makes the integer.
#[verifier::external_body]
pub(crate) fn number_from_u64(n: u64) -> (r: Number)
    ensures
        numeral(r) == Numeral::Int(n as int),
{
    Number::from(n)
}

/// `Number::from::<i64>`, which makes the integer.
#[verifier::external_body]
pub(crate) fn number_from_i64(n: i64) -> (r: Number)
    ensures
        numeral(r) == Numeral::Int(n as int),
{
    Number::from(n)
}

/// `Number::as_u64`: the integer, where the number is one that a `u64` holds.
#[verifier::external_body]
pub(crate) fn number_as_u64(n: &Number) -> (r: Option<u64>)
    ensures
        r == numeral(*n).as_u64(),
{
    n.as_u64()
}

/// `Number::as_i64`: the integer, where the number is one that an `i64` holds.
#[verifier::external_body]
pub(crate) fn number_as_i64(n: &Number) -> (r: Option<i64>)
    ensures
        r == numeral(*n).as_i64(),
{
    n.as_i64()
}

/// `==` of `Number`: equal integers, or floating-point numbers that compare
/// equal, which are those with the same bits and the two zeros.
#[verifier::external_body]
pub(crate) fn number_eq(a: &Number, b: &Number) -> (r: bool)
    ensures
        r == numerals_alike(numeral(*a), numeral(*b)),
{
    a == b
}

/// `Number::clone`, which copies the number.
#[verifier::external_body]
pub(crate) fn number_clone(n: &Number) -> (r: Number)
    ensures
        numeral(r) == numeral(*n),
{
    n.clone()
}

/// `serde_json::Value`, a JSON value.
#[verifier::external_type_specification]
#[verifier::external_body]
pub struct ExValue(serde_json::Value);

/// `serde_json::Error`, which says why a text is not JSON.
#[verifier::external_type_specification]
#[verifier::external_body]
pub struct ExError(serde_json::Error);

/// What a `serde_json::Value` holds.
pub uninterp spec fn content(v: Value) -> JsonView;

/// The JSON value that `serde_json::from_str` reads from a text, where it reads one.
pub uninterp spec fn parsed(text: Seq<char>) -> Option<JsonView>;

/// The text that `serde_json::to_string` writes for a JSON value.
pub uninterp spec fn rendered(value: JsonView) -> Seq<char>;

/// The outermost level of a JSON value.
pub(crate) enum Shape {
    Null,
    Bool(bool),
    Number(Number),
    Text(String),
    Array(Vec<Value>),
    Object(Vec<(String, Value)>),
}

/// What values hold, one by one.
pub open spec fn contents(values: Seq<Value>) -> Seq<JsonView> {
    Seq::new(values.len(), |i: int| content(values[i]))
}

/// What the fields of an object with these entries hold.
pub open spec fn field_contents(entries: Seq<(String, Value)>) -> Map<Seq<char>, JsonView> {
    entries_map(entries).map_values(|v: Value| content(v))
}

impl Shape {
    pub(crate) open spec fn holds(self) -> JsonView {
        match self {
            Shape::Null => JsonView::Null,
            Shape::Bool(b) => JsonView::Bool(b),
            Shape::Number(n) => JsonView::Number(numeral(n)),
            Shape::Text(s) => JsonView::Text(s@),
            Shape::Array(v) => JsonView::Array(contents(v@)),
            Shape::Object(e) => JsonView::Object(field_contents(e@)),
        }
    }

    pub(crate) open spec fn keys_sorted(self) -> bool {
        match self {
            Shape::Object(e) => sorted_keys(e@),
            _ => true,
        }
    }
}

/// Takes a `Value` apart, variant by variant. The entries of an object come from
/// `Map::into_iter`: each key once, in the order of the keys, for the map is a
/// `BTreeMap`.
#[verifier::external_body]
fn open_value(v: Value) -> (r: Shape)
    ensures
        r.holds() == content(v),
        r.keys_sorted(),
{
    match v {
        Value::Null => Shape::Null,
        Value::Bool(b) => Shape::Bool(b),
        Value::Number(n) => Shape::Number(n),
        Value::String(s) => Shape::Text(s),
        Value::Array(a) => Shape::Array(a),
        Value::Object(m) => Shape::Object(m.into_iter().collect()),
    }
}

/// Makes a `Value`, variant by variant. An object is made by `Map::from_iter`
/// from entries with different keys, and maps each key to its value.
#[verifier::external_body]
fn close_value(s: Shape) -> (r: Value)
    requires
        s.keys_sorted(),
    ensures
        content(r) == s.holds(),
{
    match s {
        Shape::Null => Value::Null,
        Shape::Bool(b) => Value::Bool(b),
        Shape::Number(n) => Value::Number(n),
        Shape::Text(s) => Value::String(s),
        Shape::Array(a) => Value::Array(a),
        Shape::Object(e) => Value::Object(e.into_iter().collect()),
    }
}

/// `serde_json::from_str::<Value>`, which reads a JSON text.
#[verifier::external_body]
fn read_value(text: &str) -> (r: Result<Value, serde_json::Error>)
    ensures
        r is Ok <==> parsed(text@) is Some,
        r matches Ok(v) ==> parsed(text@) == Some(content(v)),
{
    serde_json::from_str(text)
}

/// The deepest nesting of arrays and objects that `serde_json` reads.
pub const MAX_DEPTH: u64 = 127;

/// Whether a value has no floating-point number in it and nests arrays and
/// objects at most `depth` deep.
pub open spec fn plain(value: JsonView, depth: nat) -> bool
    decreases depth,
{
    match value {
        JsonView::Number(Numeral::Float(_)) => false,
        JsonView::Array(s) => depth > 0 && forall|i: int|
            0 <= i < s.len() ==> plain(#[trigger] s[i], (depth - 1) as nat),
        JsonView::Object(m) => depth > 0 && forall|k: Seq<char>|
            m.contains_key(k) ==> plain(#[trigger] m[k], (depth - 1) as nat),
        _ => true,
    }
}

/// `serde_json::to_string`, which writes a value as JSON text and does not fail
/// on a `Value`. It escapes control characters, so the text has none. What it
/// writes of a value without floating-point numbers, and not nested deeper than
/// the reader follows, is read back as that value.
#[verifier::external_body]
fn write_value(v: &Value) -> (r: String)
    ensures
        r@ == rendered(content(*v)),
        forall|i: int| 0 <= i < r@.len() ==> ' ' <= #[trigger] r@[i],
        plain(content(*v), MAX_DEPTH as nat) ==> parsed(r@) == Some(content(*v)),
{
    serde_json::to_string(v).unwrap()
}

/// Turns a `Value` into the library's own form.
fn from_value(v: Value) -> (r: Json)
    ensures
        r@ == content(v),
    decreases content(v),
{
    match open_value(v) {
        Shape::Null => Json::Null,
        Shape::Bool(b) => Json::Bool(b),
        Shape::Number(n) => Json::Number(n),
        Shape::Text(s) => Json::Text(s),
        Shape::Array(a) => {
            let ghost whole = a@;
            let mut out: Vec<Json> = Vec::new();
            assert(json_views(out@) =~= contents(whole).take(0));
            for x in iter: a
                invariant
                    content(v) == JsonView::Array(contents(whole)),
                    iter.seq() == whole,
                    json_views(out@) == contents(whole).take(iter.index() as int),
            {
                let ghost i = iter.index() as int;
                let ghost done = out@;
                proof {
                    assert(contents(whole)[i] == content(x));
                    assert(decreases_to!(content(v) => content(v)->Array_0));
                    assert(decreases_to!(contents(whole) => contents(whole)[i]));
                }
                out.push(from_value(x));
                assert(json_views(out@) =~= contents(whole).take(i + 1)) by {
                    assert(json_views(done).len() == i);
                    assert(forall|j: int|
                        0 <= j < i ==> json_views(out@)[j] == #[trigger] json_views(done)[j]);
                }
            }
            assert(contents(whole).take(whole.len() as int) =~= contents(whole));
            Json::Array(out)
        },
        Shape::Object(e) => {
            let ghost whole = e@;
            let mut out: StrMap<Json> = StrMap::new();
            proof {
                lemma_object_view(out);
                assert(object_view(out) =~= field_contents(whole.take(0)));
                lemma_field_contents_finite(whole);
            }
            for x in iter: e
                invariant
                    content(v) == JsonView::Object(field_contents(whole)),
                    field_contents(whole).dom().finite(),
                    sorted_keys(whole),
                    iter.seq() == whole,
                    object_view(out) == field_contents(whole.take(iter.index() as int)),
            {
                let ghost i = iter.index() as int;
                let ghost done = out;
                proof {
                    lemma_entries_map(whole);
                    assert(whole[i] == x);
                    assert(field_contents(whole)[x.0@] == content(x.1));
                    assert(decreases_to!(content(v) => content(v)->Object_0));
                    assert(decreases_to!(field_contents(whole) => field_contents(whole)[x.0@]));
                }
                let value = from_value(x.1);
                out.insert(x.0, value);
                proof {
                    lemma_object_view(done);
                    lemma_object_view(out);
                    lemma_field_contents_push(whole, i);
                    assert(object_view(out) =~= field_contents(whole.take(i + 1)));
                }
            }
            assert(whole.take(whole.len() as int) =~= whole);
            Json::Object(out)
        },
    }
}

/// An object with finitely many entries has finitely many fields.
proof fn lemma_field_contents_finite(entries: Seq<(String, Value)>)
    ensures
        field_contents(entries).dom().finite(),
{
    let names = entries.map_values(|e: (String, Value)| e.0@);
    assert forall|k: Seq<char>| #[trigger] field_contents(entries).dom().contains(
        k,
    ) implies names.to_set().contains(k) by {
        assert(names[key_index(entries, k)] == k);
    }
    assert(field_contents(entries).dom().subset_of(names.to_set()));
}

/// One more of sorted entries sets one more field.
proof fn lemma_field_contents_push(entries: Seq<(String, Value)>, i: int)
    requires
        sorted_keys(entries),
        0 <= i < entries.len(),
    ensures
        field_contents(entries.take(i + 1)) == field_contents(entries.take(i)).insert(
            entries[i].0@,
            content(entries[i].1),
        ),
{
    let longer = entries.take(i + 1);
    let shorter = entries.take(i);
    lemma_entries_map(longer);
    lemma_entries_map(shorter);
    assert(longer[i] == entries[i]);
    assert forall|k: Seq<char>| #[trigger] has_key(longer, k) <==> k == entries[i].0@ || has_key(
        shorter,
        k,
    ) by {
        if has_key(longer, k) && key_index(longer, k) < i {
            assert(shorter[key_index(longer, k)].0@ == k);
        }
        if has_key(shorter, k) {
            assert(longer[key_index(shorter, k)].0@ == k);
        }
    }
    assert forall|k: Seq<char>| has_key(shorter, k) implies entries_map(longer)[k]
        == #[trigger] entries_map(shorter)[k] && k != entries[i].0@ by {
        let j = key_index(shorter, k);
        assert(longer[j] == shorter[j]);
    }
    assert(field_contents(longer) =~= field_contents(shorter).insert(
        entries[i].0@,
        content(entries[i].1),
    ));
}

/// Turns a value of the library into a `Value`.
fn to_value(j: &Json) -> (r: Value)
    ensures
        content(r) == j@,
    decreases j,
{
    match j {
        Json::Null => close_value(Shape::Null),
        Json::Bool(b) => close_value(Shape::Bool(*b)),
        Json::Number(n) => close_value(Shape::Number(number_clone(n))),
        Json::Text(s) => close_value(Shape::Text(s.clone())),
        Json::Array(v) => {
            let mut out: Vec<Value> = Vec::new();
            let mut i: usize = 0;
            assert(contents(out@) =~= json_views(v@).take(0));
            while i < v.len()
                invariant
                    i <= v@.len(),
                    *j == Json::Array(*v),
                    contents(out@) == json_views(v@).take(i as int),
                decreases v@.len() - i,
            {
                let ghost done = out@;
                proof {
                    assert(decreases_to!(*j => j->Array_0));
                    assert(decreases_to!(*v => v@[i as int]));
                }
                out.push(to_value(&v[i]));
                assert(contents(out@) =~= json_views(v@).take(i + 1)) by {
                    assert(contents(done).len() == i);
                    assert(forall|k: int|
                        0 <= k < i ==> contents(out@)[k] == #[trigger] contents(done)[k]);
                }
                i = i + 1;
            }
            assert(json_views(v@).take(i as int) =~= json_views(v@));
            close_value(Shape::Array(out))
        },
        Json::Object(o) => {
            let mut out: Vec<(String, Value)> = Vec::new();
            let mut i: usize = 0;
            proof {
                use_type_invariant(o);
                o.lemma_items();
                o.lemma_entries();
            }
            while i < o.len()
                invariant
                    i <= o.items().len(),
                    *j == Json::Object(*o),
                    sorted_keys(o.items()),
                    o.items() == o.entries@,
                    out@.len() == i,
                    forall|k: int|
                        #![trigger out@[k]]
                        0 <= k < i ==> out@[k].0@ == o.items()[k].0@ && content(out@[k].1)
                            == json_view(o.items()[k].1),
                decreases o.items().len() - i,
            {
                proof {
                    assert(decreases_to!(*j => j->Object_0));
                    assert(decreases_to!(*o => o.entries));
                    assert(decreases_to!(o.entries => o.entries@[i as int]));
                }
                let value = to_value(o.value_at(i));
                out.push((o.key_at(i).clone(), value));
                i = i + 1;
            }
            proof {
                lemma_object_view(*o);
                lemma_entries_map(out@);
                lemma_entries_map(o.items());
                assert forall|k: Seq<char>| #[trigger] has_key(out@, k) <==> has_key(o.items(), k) by {
                    if has_key(out@, k) {
                        assert(o.items()[key_index(out@, k)].0@ == k);
                    }
                    if has_key(o.items(), k) {
                        assert(out@[key_index(o.items(), k)].0@ == k);
                    }
                }
                assert forall|k: Seq<char>| has_key(out@, k) implies content(
                    #[trigger] entries_map(out@)[k],
                ) == object_view(*o)[k] by {
                    let n = key_index(out@, k);
                    assert(out@[n].0@ == k);
                    assert(o.items()[n].0@ == k);
                    assert(object_view(*o).contains_key(k));
                }
                assert(field_contents(out@) =~= object_view(*o));
            }
            close_value(Shape::Object(out))
        },
    }
}

/// Says that a text is not JSON.
#[derive(Debug, PartialEq, Eq, Clone, Copy)]
pub struct Malformed;

/// Reads a JSON text.
pub fn parse(text: &str) -> (r: Result<Json, Malformed>)
    ensures
        r is Ok <==> parsed(text@) is Some,
        r matches Ok(j) ==> parsed(text@) == Some(j@),
{
    match read_value(text) {
        Ok(v) => Ok(from_value(v)),
        Err(_) => Err(Malformed),
    }
}

/// Whether a text is the JSON text of a value: it is what is written for it, it
/// has no control character in it, so it is one line, and it is read back as the
/// value where that is plain and not nested too deep.
pub open spec fn line_of(text: Seq<char>, value: JsonView) -> bool {
    &&& text == rendered(value)
    &&& forall|i: int| 0 <= i < text.len() ==> ' ' <= #[trigger] text[i]
    &&& plain(value, MAX_DEPTH as nat) ==> parsed(text) == Some(value)
}

/// Writes a value as JSON text.
pub fn render(j: &Json) -> (r: String)
    ensures
        line_of(r@, j@),
{
    write_value(&to_value(j))
}

/// The line of a value is its JSON text: it holds no line break or other control
/// character, and is read back as the value, where that has no floating-point number
/// and is not nested too deep.
pub proof fn law_line_is_read_back(text: Seq<char>, value: JsonView)
    requires
        line_of(text, value),
    ensures
        text == rendered(value),
        !text.contains('\n'),
        !text.contains('\r'),
        plain(value, MAX_DEPTH as nat) ==> parsed(text) == Some(value),
{
}

/// A value is plain if all in it is, one level less deep: strings, integers, null and
/// the two truth values are at any depth, floating-point numbers at none.
pub proof fn law_plain_by_parts(value: JsonView, depth: nat)
    ensures
        value is Null || value is Bool || value is Text ==> plain(value, depth),
        value matches JsonView::Number(n) ==> (plain(value, depth) <==> n is Int),
        value matches JsonView::Array(s) ==> (plain(value, depth + 1) <==> forall|i: int|
            0 <= i < s.len() ==> plain(#[trigger] s[i], depth)),
        value matches JsonView::Object(m) ==> (plain(value, depth + 1) <==> forall|k: Seq<char>|
            m.contains_key(k) ==> plain(#[trigger] m[k], depth)),
        value is Array || value is Object ==> !plain(value, 0),
{
}

} // verus!
