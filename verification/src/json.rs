//! JSON values.
use vstd::prelude::*;
use crate::strmap::{has_key, key_index, lemma_entries_map, sorted_keys, StrMap};
use crate::text::same_text;
use crate::wire::{
    number_as_i64, number_as_u64, number_clone, number_eq, number_from_i64, number_from_u64,
    numeral,
};
use serde_json::Number;

verus! {

/// A number of a JSON text: an integer, or a floating-point number given by its
/// 64 bits.
pub enum Numeral {
    Int(int),
    Float(u64),
}

impl Numeral {
    /// The integer, where a `u64` holds it.
    pub open spec fn as_u64(self) -> Option<u64> {
        match self {
            Numeral::Int(i) => if 0 <= i <= u64::MAX {
                Some(i as u64)
            } else {
                None
            },
            Numeral::Float(_) => None,
        }
    }

    /// The integer, where an `i64` holds it.
    pub open spec fn as_i64(self) -> Option<i64> {
        match self {
            Numeral::Int(i) => if i64::MIN <= i <= i64::MAX {
                Some(i as i64)
            } else {
                None
            },
            Numeral::Float(_) => None,
        }
    }
}

/// Whether the bits are those of a floating-point zero, of either sign.
pub open spec fn zero_bits(bits: u64) -> bool {
    bits == 0 || bits == 0x8000_0000_0000_0000
}

/// Whether two numbers are equal as JSON values.
pub open spec fn numerals_alike(a: Numeral, b: Numeral) -> bool {
    match (a, b) {
        (Numeral::Int(x), Numeral::Int(y)) => x == y,
        (Numeral::Float(x), Numeral::Float(y)) => x == y || (zero_bits(x) && zero_bits(y)),
        _ => false,
    }
}

/// What a JSON value is.
#[verifier::ext_equal]
pub enum JsonView {
    Null,
    Bool(bool),
    Number(Numeral),
    Text(Seq<char>),
    Array(Seq<JsonView>),
    Object(Map<Seq<char>, JsonView>),
}

/// A JSON value.
#[derive(Debug, PartialEq)]
pub enum Json {
    Null,
    Bool(bool),
    Number(Number),
    Text(String),
    Array(Vec<Json>),
    Object(StrMap<Json>),
}

/// What a value stands for.
pub open spec fn json_view(j: Json) -> JsonView
    decreases j,
{
    match j {
        Json::Null => JsonView::Null,
        Json::Bool(b) => JsonView::Bool(b),
        Json::Number(n) => JsonView::Number(numeral(n)),
        Json::Text(s) => JsonView::Text(s@),
        Json::Array(v) => JsonView::Array(json_views(v@)),
        Json::Object(o) => JsonView::Object(object_view(o)),
    }
}

/// What a sequence of values stands for.
pub open spec fn json_views(s: Seq<Json>) -> Seq<JsonView>
    decreases s,
{
    Seq::new(
        s.len(),
        |i: int|
            if 0 <= i < s.len() {
                json_view(s[i])
            } else {
                JsonView::Null
            },
    )
}

/// What the fields of an object stand for.
pub closed spec fn object_view(o: StrMap<Json>) -> Map<Seq<char>, JsonView>
    decreases o,
{
    Map::new(
        |k: Seq<char>| has_key(o.entries@, k),
        |k: Seq<char>|
            if has_key(o.entries@, k) {
                json_view(o.entries@[key_index(o.entries@, k)].1)
            } else {
                JsonView::Null
            },
    )
}

/// An object has the fields of its map, each standing for what its value does.
pub proof fn lemma_object_view(o: StrMap<Json>)
    ensures
        object_view(o).dom() == o@.dom(),
        forall|k: Seq<char>| #[trigger]
            object_view(o).contains_key(k) ==> object_view(o)[k] == json_view(o@[k]),
        object_view(o).dom().finite(),
{
    o.lemma_entries();
    assert(object_view(o).dom() =~= o@.dom());
    let names = o.entries@.map_values(|e: (String, Json)| e.0@);
    assert(object_view(o).dom() =~= names.to_set()) by {
        assert forall|k: Seq<char>| #[trigger] object_view(o).dom().contains(k) implies names.contains(
            k,
        ) by {
            assert(names[key_index(o.entries@, k)] == k);
        }
        assert forall|k: Seq<char>| #[trigger] names.contains(k) implies has_key(o.entries@, k) by {
            let i = names.index_of(k);
            assert(o.entries@[i].0@ == k);
        }
    }
}

impl View for Json {
    type V = JsonView;

    open spec fn view(&self) -> JsonView {
        json_view(*self)
    }
}

impl JsonView {
    /// The value of a field: null where the value is no object or has no such field.
    pub open spec fn field(self, key: Seq<char>) -> JsonView {
        match self {
            JsonView::Object(m) => if m.contains_key(key) {
                m[key]
            } else {
                JsonView::Null
            },
            _ => JsonView::Null,
        }
    }

    /// The string, where the value is one.
    pub open spec fn as_text(self) -> Option<Seq<char>> {
        match self {
            JsonView::Text(s) => Some(s),
            _ => None,
        }
    }

    /// The string, or the empty one where the value is none.
    pub open spec fn text_or_empty(self) -> Seq<char> {
        match self {
            JsonView::Text(s) => s,
            _ => Seq::empty(),
        }
    }

    /// The integer, where the value is one that a `u64` holds.
    pub open spec fn as_u64(self) -> Option<u64> {
        match self {
            JsonView::Number(n) => n.as_u64(),
            _ => None,
        }
    }

    /// The integer, where the value is one that an `i64` holds.
    pub open spec fn as_i64(self) -> Option<i64> {
        match self {
            JsonView::Number(n) => n.as_i64(),
            _ => None,
        }
    }

    /// Whether a field can be set in the value: it is an object, or null, which
    /// counts as an object without fields.
    pub open spec fn is_settable(self) -> bool {
        self is Object || self is Null
    }

    /// The fields of a value in which fields can be set.
    pub open spec fn fields(self) -> Map<Seq<char>, JsonView> {
        match self {
            JsonView::Object(m) => m,
            _ => Map::empty(),
        }
    }

    /// The value with a field set.
    pub open spec fn with(self, key: Seq<char>, value: JsonView) -> JsonView {
        JsonView::Object(self.fields().insert(key, value))
    }
}

/// The JSON value of an integer.
pub open spec fn number_json(n: int) -> JsonView {
    JsonView::Number(Numeral::Int(n))
}

/// An object without fields.
pub open spec fn empty_object() -> JsonView {
    JsonView::Object(Map::empty())
}

/// An object whose only field is its type.
pub open spec fn typed(kind: Seq<char>) -> JsonView {
    empty_object().with("type"@, JsonView::Text(kind))
}

/// Whether two values are equal: they have the same shape, and their numbers
/// are equal. The two floating-point zeros are, though they are written differently.
pub open spec fn alike(a: JsonView, b: JsonView) -> bool
    decreases a,
{
    match (a, b) {
        (JsonView::Null, JsonView::Null) => true,
        (JsonView::Bool(x), JsonView::Bool(y)) => x == y,
        (JsonView::Number(x), JsonView::Number(y)) => numerals_alike(x, y),
        (JsonView::Text(x), JsonView::Text(y)) => x == y,
        (JsonView::Array(x), JsonView::Array(y)) => {
            &&& x.len() == y.len()
            &&& forall|i: int| 0 <= i < x.len() ==> alike(#[trigger] x[i], y[i])
        },
        (JsonView::Object(x), JsonView::Object(y)) => if x.dom().finite() {
            &&& x.dom() == y.dom()
            &&& forall|k: Seq<char>| x.contains_key(k) ==> alike(#[trigger] x[k], y[k])
        } else {
            x == y
        },
        _ => false,
    }
}

/// Every value equals itself.
pub proof fn law_equality_is_reflexive(a: JsonView)
    ensures
        alike(a, a),
    decreases a,
{
    match a {
        JsonView::Array(x) => {
            assert forall|i: int| 0 <= i < x.len() implies alike(#[trigger] x[i], x[i]) by {
                law_equality_is_reflexive(x[i]);
            }
        },
        JsonView::Object(x) => {
            if x.dom().finite() {
                assert forall|k: Seq<char>| x.contains_key(k) implies alike(
                    #[trigger] x[k],
                    x[k],
                ) by {
                    law_equality_is_reflexive(x[k]);
                }
            }
        },
        _ => {},
    }
}

/// Of equal values it does not matter which comes first.
pub proof fn law_equality_is_symmetric(a: JsonView, b: JsonView)
    requires
        alike(a, b),
    ensures
        alike(b, a),
    decreases a,
{
    match (a, b) {
        (JsonView::Array(x), JsonView::Array(y)) => {
            assert forall|i: int| 0 <= i < y.len() implies alike(#[trigger] y[i], x[i]) by {
                assert(alike(x[i], y[i]));
                law_equality_is_symmetric(x[i], y[i]);
            }
        },
        (JsonView::Object(x), JsonView::Object(y)) => {
            if x.dom().finite() {
                assert forall|k: Seq<char>| y.contains_key(k) implies alike(
                    #[trigger] y[k],
                    x[k],
                ) by {
                    assert(x.contains_key(k));
                    assert(alike(x[k], y[k]));
                    law_equality_is_symmetric(x[k], y[k]);
                }
            }
        },
        _ => {},
    }
}

/// Values that equal the same value are equal.
pub proof fn law_equality_is_transitive(a: JsonView, b: JsonView, c: JsonView)
    requires
        alike(a, b),
        alike(b, c),
    ensures
        alike(a, c),
    decreases a,
{
    match (a, b, c) {
        (JsonView::Array(x), JsonView::Array(y), JsonView::Array(z)) => {
            assert forall|i: int| 0 <= i < x.len() implies alike(#[trigger] x[i], z[i]) by {
                assert(alike(x[i], y[i]));
                assert(alike(y[i], z[i]));
                law_equality_is_transitive(x[i], y[i], z[i]);
            }
        },
        (JsonView::Object(x), JsonView::Object(y), JsonView::Object(z)) => {
            if x.dom().finite() {
                assert forall|k: Seq<char>| x.contains_key(k) implies alike(
                    #[trigger] x[k],
                    z[k],
                ) by {
                    assert(y.contains_key(k));
                    assert(alike(x[k], y[k]));
                    assert(alike(y[k], z[k]));
                    law_equality_is_transitive(x[k], y[k], z[k]);
                }
            }
        },
        _ => {},
    }
}

impl Json {
    /// The JSON value of a string.
    pub fn text(s: &str) -> (r: Json)
        ensures
            r@ == JsonView::Text(s@),
    {
        Json::Text(s.to_owned())
    }

    /// The JSON value of a natural number.
    pub fn number(n: u64) -> (r: Json)
        ensures
            r@ == number_json(n as int),
    {
        Json::Number(number_from_u64(n))
    }

    /// The JSON value of an integer.
    pub fn signed(n: i64) -> (r: Json)
        ensures
            r@ == number_json(n as int),
    {
        Json::Number(number_from_i64(n))
    }

    /// An object without fields.
    pub fn object() -> (r: Json)
        ensures
            r@ == empty_object(),
    {
        let o: StrMap<Json> = StrMap::new();
        proof {
            lemma_object_view(o);
            assert(object_view(o) =~= Map::empty());
        }
        Json::Object(o)
    }

    /// An object whose only field is its type.
    pub fn typed(kind: &str) -> (r: Json)
        ensures
            r@ == typed(kind@),
    {
        Json::object().with("type", Json::text(kind))
    }

    /// The value with a field set; null counts as an object without fields.
    pub fn with(self, key: &str, value: Json) -> (r: Json)
        requires
            self@.is_settable(),
        ensures
            r@ == self@.with(key@, value@),
    {
        let ghost before = self@;
        match self {
            Json::Object(mut o) => {
                let ghost m = o;
                o.insert(key.to_owned(), value);
                proof {
                    lemma_object_view(m);
                    lemma_object_view(o);
                    assert(object_view(o) =~= before.fields().insert(key@, value@));
                }
                Json::Object(o)
            },
            _ => {
                let mut o: StrMap<Json> = StrMap::new();
                o.insert(key.to_owned(), value);
                proof {
                    lemma_object_view(o);
                    assert(object_view(o) =~= before.fields().insert(key@, value@));
                }
                Json::Object(o)
            },
        }
    }

    /// Whether a field can be set in the value.
    pub fn is_settable(&self) -> (r: bool)
        ensures
            r == self@.is_settable(),
    {
        match self {
            Json::Object(_) | Json::Null => true,
            _ => false,
        }
    }

    /// The value of a field: null where the value is no object or has no such field.
    pub fn field(&self, key: &str) -> (r: &Json)
        ensures
            r@ == self@.field(key@),
    {
        match self {
            Json::Object(o) => {
                proof {
                    lemma_object_view(*o);
                }
                match o.get(key) {
                    Some(v) => v,
                    None => &Json::Null,
                }
            },
            _ => &Json::Null,
        }
    }

    /// The string, where the value is one.
    pub fn as_text(&self) -> (r: Option<&String>)
        ensures
            r is Some <==> self@.as_text() is Some,
            r matches Some(s) ==> self@.as_text() == Some(s@),
    {
        match self {
            Json::Text(s) => Some(s),
            _ => None,
        }
    }

    /// The string, or the empty one where the value is none.
    pub fn text_or_empty(&self) -> (r: String)
        ensures
            r@ == self@.text_or_empty(),
    {
        match self {
            Json::Text(s) => s.clone(),
            _ => String::new(),
        }
    }

    /// The integer, where the value is one that a `u64` holds.
    pub fn as_u64(&self) -> (r: Option<u64>)
        ensures
            r == self@.as_u64(),
    {
        match self {
            Json::Number(n) => number_as_u64(n),
            _ => None,
        }
    }

    /// The integer, where the value is one that an `i64` holds.
    pub fn as_i64(&self) -> (r: Option<i64>)
        ensures
            r == self@.as_i64(),
    {
        match self {
            Json::Number(n) => number_as_i64(n),
            _ => None,
        }
    }

    /// Whether the value is the string `s`.
    pub fn is_text(&self, s: &str) -> (r: bool)
        ensures
            r == (self@ == JsonView::Text(s@)),
    {
        match self {
            Json::Text(t) => same_text(t.as_str(), s),
            _ => false,
        }
    }

    /// The elements, where the value is an array.
    pub fn as_array(&self) -> (r: Option<&Vec<Json>>)
        ensures
            r is Some <==> self@ is Array,
            r matches Some(v) ==> self@ == JsonView::Array(json_views(v@)),
    {
        match self {
            Json::Array(v) => Some(v),
            _ => None,
        }
    }

    /// The fields, where the value is an object.
    pub fn as_object(&self) -> (r: Option<&StrMap<Json>>)
        ensures
            r is Some <==> self@ is Object,
            r matches Some(o) ==> self@ == JsonView::Object(object_view(*o)),
    {
        match self {
            Json::Object(o) => Some(o),
            _ => None,
        }
    }
}

impl Clone for Json {
    /// Copies the value.
    fn clone(&self) -> (r: Json)
        ensures
            r@ == self@,
        decreases self,
    {
        match self {
            Json::Null => Json::Null,
            Json::Bool(b) => Json::Bool(*b),
            Json::Number(n) => Json::Number(number_clone(n)),
            Json::Text(s) => Json::Text(s.clone()),
            Json::Array(v) => {
                let mut w: Vec<Json> = Vec::new();
                let mut i: usize = 0;
                while i < v.len()
                    invariant
                        i <= v@.len(),
                        *self == Json::Array(*v),
                        json_views(w@) == json_views(v@).take(i as int),
                    decreases v@.len() - i,
                {
                    let ghost done = w@;
                    assert(decreases_to!(*self => self->Array_0));
                    assert(decreases_to!(*v => v@[i as int]));
                    w.push(v[i].clone());
                    assert(json_views(w@) =~= json_views(v@).take(i + 1)) by {
                        assert(json_views(done).len() == i);
                        assert(forall|j: int|
                            0 <= j < i ==> json_views(w@)[j] == #[trigger] json_views(done)[j]);
                    }
                    i = i + 1;
                }
                assert(json_views(v@).take(i as int) =~= json_views(v@));
                Json::Array(w)
            },
            Json::Object(o) => {
                let mut p: StrMap<Json> = StrMap::new();
                let mut i: usize = 0;
                proof {
                    lemma_object_view(p);
                    o.lemma_entries();
                    assert(object_view(p) =~= items_view(o.items().take(0)));
                }
                while i < o.len()
                    invariant
                        i <= o.items().len(),
                        *self == Json::Object(*o),
                        o.items() == o.entries@,
                        object_view(p) == items_view(o.items().take(i as int)),
                    decreases o.items().len() - i,
                {
                    let ghost done = p;
                    assert(decreases_to!(*self => self->Object_0));
                    assert(decreases_to!(*o => o.entries));
                    assert(decreases_to!(o.entries => o.entries@[i as int]));
                    let value = o.value_at(i).clone();
                    p.insert(o.key_at(i).clone(), value);
                    proof {
                        lemma_object_view(done);
                        lemma_object_view(p);
                        assert(o.items().take(i + 1).drop_last() =~= o.items().take(i as int));
                        assert(object_view(p) =~= items_view(o.items().take(i + 1)));
                    }
                    i = i + 1;
                }
                proof {
                    use_type_invariant(o);
                    assert(o.items().take(i as int) =~= o.items());
                    lemma_items_view(*o);
                }
                Json::Object(p)
            },
        }
    }
}

/// The fields that come of setting those of the items one after another.
pub open spec fn items_view(items: Seq<(String, Json)>) -> Map<Seq<char>, JsonView>
    decreases items.len(),
{
    if items.len() == 0 {
        Map::empty()
    } else {
        items_view(items.drop_last()).insert(items.last().0@, items.last().1@)
    }
}

/// An object has the fields that its items set.
pub proof fn lemma_items_view(o: StrMap<Json>)
    requires
        o.ordered(),
    ensures
        object_view(o) == items_view(o.items()),
{
    o.lemma_items();
    lemma_object_view(o);
    lemma_sorted_items_view(o.items());
    assert(object_view(o) =~= items_view(o.items())) by {
        assert forall|k: Seq<char>| #[trigger] items_view(o.items()).contains_key(k)
            implies object_view(o).contains_key(k) by {
            assert(o@.contains_key(o.items()[key_index(o.items(), k)].0@));
        }
    }
}

proof fn lemma_sorted_items_view(items: Seq<(String, Json)>)
    requires
        sorted_keys(items),
    ensures
        forall|k: Seq<char>| #[trigger] items_view(items).contains_key(k) <==> has_key(items, k),
        forall|i: int|
            0 <= i < items.len() ==> items_view(items)[#[trigger] items[i].0@] == items[i].1@,
    decreases items.len(),
{
    if items.len() > 0 {
        let rest = items.drop_last();
        lemma_sorted_items_view(rest);
        lemma_entries_map(items);
        assert forall|k: Seq<char>| #[trigger] items_view(items).contains_key(k) <==> has_key(
            items,
            k,
        ) by {
            if has_key(items, k) {
                let i = key_index(items, k);
                if i < rest.len() {
                    assert(rest[i].0@ == k);
                }
            }
            assert(items_view(rest).contains_key(k) == has_key(rest, k));
            if has_key(rest, k) {
                assert(items[key_index(rest, k)].0@ == k);
            }
            if k == items.last().0@ {
                assert(items[items.len() - 1].0@ == k);
            }
        }
        assert forall|i: int| 0 <= i < items.len() implies items_view(
            items,
        )[#[trigger] items[i].0@] == items[i].1@ by {
            if i < rest.len() {
                assert(rest[i] == items[i]);
                assert(items[i].0@ != items[items.len() - 1].0@);
            }
        }
    }
}

impl Json {
    /// Whether two values are equal.
    pub fn same(&self, other: &Json) -> (r: bool)
        ensures
            r == alike(self@, other@),
        decreases self,
    {
        match (self, other) {
            (Json::Null, Json::Null) => true,
            (Json::Bool(x), Json::Bool(y)) => *x == *y,
            (Json::Number(x), Json::Number(y)) => number_eq(x, y),
            (Json::Text(x), Json::Text(y)) => same_text(x.as_str(), y.as_str()),
            (Json::Array(x), Json::Array(y)) => {
                if x.len() != y.len() {
                    return false;
                }
                let mut i: usize = 0;
                while i < x.len()
                    invariant
                        i <= x@.len(),
                        x@.len() == y@.len(),
                        *self == Json::Array(*x),
                        *other == Json::Array(*y),
                        forall|j: int|
                            0 <= j < i ==> alike(#[trigger] json_views(x@)[j], json_views(y@)[j]),
                    decreases x@.len() - i,
                {
                    assert(decreases_to!(*self => self->Array_0));
                    assert(decreases_to!(*x => x@[i as int]));
                    if !x[i].same(&y[i]) {
                        assert(!alike(json_views(x@)[i as int], json_views(y@)[i as int]));
                        return false;
                    }
                    i = i + 1;
                }
                proof {
                    let xs = json_views(x@);
                    let ys = json_views(y@);
                    assert(self@ == JsonView::Array(xs));
                    assert(other@ == JsonView::Array(ys));
                    assert(forall|j: int| 0 <= j < xs.len() ==> alike(#[trigger] xs[j], ys[j]));
                    assert(alike(self@, other@));
                }
                true
            },
            (Json::Object(x), Json::Object(y)) => {
                proof {
                    use_type_invariant(x);
                    use_type_invariant(y);
                    x.lemma_items();
                    y.lemma_items();
                    lemma_object_view(*x);
                    lemma_object_view(*y);
                    x.lemma_entries();
                }
                let mut i: usize = 0;
                while i < y.len()
                    invariant
                        i <= y.items().len(),
                        *self == Json::Object(*x),
                        *other == Json::Object(*y),
                        object_view(*x).dom() == x@.dom(),
                        object_view(*x).dom().finite(),
                        object_view(*y).dom() == y@.dom(),
                        forall|j: int|
                            0 <= j < y.items().len() ==> y@.contains_key(
                                #[trigger] y.items()[j].0@,
                            ),
                        forall|j: int|
                            0 <= j < i ==> x@.contains_key(#[trigger] y.items()[j].0@),
                    decreases y.items().len() - i,
                {
                    if x.get(y.key_at(i).as_str()).is_none() {
                        assert(object_view(*y).contains_key(y.items()[i as int].0@));
                        return false;
                    }
                    i = i + 1;
                }
                let mut i: usize = 0;
                while i < x.len()
                    invariant
                        i <= x.items().len(),
                        *self == Json::Object(*x),
                        *other == Json::Object(*y),
                        x.items() == x.entries@,
                        object_view(*x).dom() == x@.dom(),
                        object_view(*x).dom().finite(),
                        object_view(*y).dom() == y@.dom(),
                        forall|k: Seq<char>| #[trigger]
                            object_view(*x).contains_key(k) ==> object_view(*x)[k] == json_view(
                                x@[k],
                            ),
                        forall|k: Seq<char>| #[trigger]
                            object_view(*y).contains_key(k) ==> object_view(*y)[k] == json_view(
                                y@[k],
                            ),
                        forall|j: int|
                            0 <= j < x.items().len() ==> x@.contains_key(
                                #[trigger] x.items()[j].0@,
                            ) && x@[x.items()[j].0@] == x.items()[j].1,
                        forall|j: int|
                            0 <= j < i ==> y@.contains_key(#[trigger] x.items()[j].0@) && alike(
                                json_view(x.items()[j].1),
                                json_view(y@[x.items()[j].0@]),
                            ),
                    decreases x.items().len() - i,
                {
                    let ghost k = x.items()[i as int].0@;
                    assert(object_view(*x).contains_key(k));
                    match y.get(x.key_at(i).as_str()) {
                        None => {
                            return false;
                        },
                        Some(v) => {
                            assert(object_view(*y).contains_key(k));
                            if !x.value_at(i).same(v) {
                                assert(!alike(object_view(*x)[k], object_view(*y)[k]));
                                return false;
                            }
                        },
                    }
                    i = i + 1;
                }
                proof {
                    assert(object_view(*x).dom() =~= object_view(*y).dom()) by {
                        assert forall|k: Seq<char>| #[trigger]
                            x@.dom().contains(k) <==> y@.dom().contains(k) by {
                            if x@.contains_key(k) {
                                assert(y@.contains_key(x.items()[key_index(x.items(), k)].0@));
                            }
                            if y@.contains_key(k) {
                                assert(x@.contains_key(y.items()[key_index(y.items(), k)].0@));
                            }
                        }
                    }
                    assert forall|k: Seq<char>| object_view(*x).contains_key(k) implies alike(
                        #[trigger] object_view(*x)[k],
                        object_view(*y)[k],
                    ) by {
                        let j = key_index(x.items(), k);
                        assert(x@.contains_key(k));
                        assert(x.items()[j].0@ == k);
                        assert(object_view(*y).contains_key(k));
                    }
                    assert(alike(self@, other@));
                }
                true
            },
            _ => {
                assert(!alike(self@, other@));
                false
            },
        }
    }
}

/// A field that is set is found, and the other fields stay as they are.
pub proof fn law_set_field_is_found(
    v: JsonView,
    key: Seq<char>,
    value: JsonView,
    other: Seq<char>,
)
    requires
        v is Object || v is Null,
    ensures
        v.is_settable(),
        v.with(key, value) is Object,
        v.with(key, value).field(key) == value,
        other != key ==> v.with(key, value).field(other) == v.field(other),
{
}

/// A field is what the object maps its name to, and null where there is none.
pub proof fn law_field_is_what_the_object_holds(v: JsonView, key: Seq<char>)
    ensures
        v matches JsonView::Object(m) ==> if m.contains_key(key) {
            v.field(key) == m[key]
        } else {
            v.field(key) == JsonView::Null
        },
        !(v is Object) ==> v.field(key) == JsonView::Null,
        v.is_settable() ==> v is Object || v is Null,
{
}

/// A value gives a natural number if and only if it is that number, and likewise an
/// integer: no other value does, and none that does not fit.
pub proof fn law_numbers_are_read_back(v: JsonView, n: u64, i: i64)
    ensures
        v.as_u64() == Some(n) <==> v == JsonView::Number(Numeral::Int(n as int)),
        v.as_i64() == Some(i) <==> v == JsonView::Number(Numeral::Int(i as int)),
        number_json(i as int) == JsonView::Number(Numeral::Int(i as int)),
        number_json(n as int) == JsonView::Number(Numeral::Int(n as int)),
{
}

/// A value gives a string if and only if it is that string.
pub proof fn law_texts_are_read_back(v: JsonView, s: Seq<char>)
    ensures
        v.as_text() == Some(s) <==> v == JsonView::Text(s),
        v == JsonView::Text(s) ==> v.text_or_empty() == s,
        !(v is Text) ==> v.text_or_empty() == Seq::<char>::empty(),
{
}

/// An object of a type has that type, and no other field.
pub proof fn law_typed_object_has_its_type(kind: Seq<char>)
    ensures
        typed(kind) == JsonView::Object(map!["type"@ => JsonView::Text(kind)]),
{
}

/// Values are equal by their parts: those of an array one by one, those of an object
/// name by name. Floating-point numbers are by their bits, but for the zeros, whose
/// bits are those of no more than a sign.
pub proof fn law_equality_is_by_parts(a: JsonView, b: JsonView)
    requires
        a matches JsonView::Object(x) ==> x.dom().finite(),
    ensures
        alike(a, b) ==> (a is Null <==> b is Null) && (a is Bool <==> b is Bool) && (
        a is Number <==> b is Number) && (a is Text <==> b is Text) && (a is Array
            <==> b is Array) && (a is Object <==> b is Object),
        a is Null || a is Bool || a is Text ==> (alike(a, b) <==> a == b),
        a is Number && a->Number_0 is Int ==> (alike(a, b) <==> a == b),
        a is Number && a->Number_0 is Float ==> (alike(a, b) <==> b is Number && b->Number_0 is Float
            && (a == b || (a->Number_0->Float_0 as int % 0x8000_0000_0000_0000 == 0
            && b->Number_0->Float_0 as int % 0x8000_0000_0000_0000 == 0))),
        a is Array && b is Array ==> (alike(a, b) <==> a->Array_0.len() == b->Array_0.len()
            && forall|i: int|
            0 <= i < a->Array_0.len() ==> alike(#[trigger] a->Array_0[i], b->Array_0[i])),
        a is Object && b is Object ==> (alike(a, b) <==> a->Object_0.dom() == b->Object_0.dom()
            && forall|k: Seq<char>|
            a->Object_0.contains_key(k) ==> alike(#[trigger] a->Object_0[k], b->Object_0[k])),
{
    match (a, b) {
        (JsonView::Array(x), JsonView::Array(y)) => {
            assert(alike(a, b) <==> x.len() == y.len() && forall|i: int|
                0 <= i < x.len() ==> alike(#[trigger] x[i], y[i]));
        },
        (JsonView::Object(x), JsonView::Object(y)) => {
            assert(alike(a, b) <==> x.dom() == y.dom() && forall|k: Seq<char>|
                x.contains_key(k) ==> alike(#[trigger] x[k], y[k]));
        },
        _ => {},
    }
}

/// A value is seen as what it is: its kind, and what it holds, part by part.
pub proof fn law_value_is_seen_as_it_is(j: Json, i: int, key: Seq<char>)
    ensures
        j is Null ==> j@ == JsonView::Null,
        j matches Json::Bool(b) ==> j@ == JsonView::Bool(b),
        j matches Json::Number(n) ==> j@ == JsonView::Number(numeral(n)),
        j matches Json::Text(s) ==> j@ == JsonView::Text(s@),
        j matches Json::Array(v) ==> j@ is Array && j@->Array_0.len() == v@.len() && (0 <= i
            < v@.len() ==> j@->Array_0[i] == v@[i]@),
        j matches Json::Object(o) ==> j@ is Object && j@->Object_0.dom() == o@.dom() && (
        o@.contains_key(key) ==> j@->Object_0[key] == o@[key]@),
{
    if let Json::Object(o) = j {
        lemma_object_view(o);
        if o@.contains_key(key) {
            assert(object_view(o).contains_key(key));
        }
    }
}

} // verus!
