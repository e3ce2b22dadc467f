//! A map with string keys, kept as a vector sorted by key.
use vstd::prelude::*;
use crate::text::{
    lemma_text_lt_irreflexive, lemma_text_lt_total, lemma_text_lt_transitive, precedes, same_text,
    text_lt,
};

verus! {

/// Whether the keys of the entries are strictly increasing.
pub open spec fn sorted_keys<V>(entries: Seq<(String, V)>) -> bool {
    forall|i: int, j: int|
        0 <= i < j < entries.len() ==> text_lt(#[trigger] entries[i].0@, #[trigger] entries[j].0@)
}

/// Whether one of the entries has the key.
pub open spec fn has_key<V>(entries: Seq<(String, V)>, key: Seq<char>) -> bool {
    exists|i: int| 0 <= i < entries.len() && #[trigger] entries[i].0@ == key
}

/// The index of an entry with the key, where there is one.
pub open spec fn key_index<V>(entries: Seq<(String, V)>, key: Seq<char>) -> int {
    choose|i: int| 0 <= i < entries.len() && #[trigger] entries[i].0@ == key
}

/// The map that the entries stand for.
pub open spec fn entries_map<V>(entries: Seq<(String, V)>) -> Map<Seq<char>, V> {
    Map::new(|k: Seq<char>| has_key(entries, k), |k: Seq<char>| entries[key_index(entries, k)].1)
}

/// In sorted entries each key has one entry, whose value it is mapped to.
pub proof fn lemma_entries_map<V>(entries: Seq<(String, V)>)
    requires
        sorted_keys(entries),
    ensures
        forall|i: int|
            0 <= i < entries.len() ==> entries_map(entries).contains_key(
                #[trigger] entries[i].0@,
            ) && entries_map(entries)[entries[i].0@] == entries[i].1,
        forall|i: int, j: int|
            0 <= i < entries.len() && 0 <= j < entries.len() && #[trigger] entries[i].0@
                == #[trigger] entries[j].0@ ==> i == j,
{
    assert forall|i: int, j: int|
        0 <= i < entries.len() && 0 <= j < entries.len() && #[trigger] entries[i].0@
            == #[trigger] entries[j].0@ implies i == j by {
        lemma_text_lt_irreflexive(entries[i].0@);
    }
    assert forall|i: int| 0 <= i < entries.len() implies entries_map(entries).contains_key(
        #[trigger] entries[i].0@,
    ) && entries_map(entries)[entries[i].0@] == entries[i].1 by {
        assert(has_key(entries, entries[i].0@));
        assert(entries[key_index(entries, entries[i].0@)].0@ == entries[i].0@);
    }
}

/// A map from strings to `V` whose entries come in the order of their keys.
#[derive(Debug, PartialEq)]
pub struct StrMap<V> {
    pub(crate) entries: Vec<(String, V)>,
}

impl<V> View for StrMap<V> {
    type V = Map<Seq<char>, V>;

    closed spec fn view(&self) -> Map<Seq<char>, V> {
        entries_map(self.entries@)
    }
}

impl<V> StrMap<V> {
    #[verifier::type_invariant]
    pub closed spec fn ordered(self) -> bool {
        sorted_keys(self.entries@)
    }

    /// The entries in the order of their keys.
    pub closed spec fn items(self) -> Seq<(String, V)> {
        self.entries@
    }

    /// The keys in their order.
    pub open spec fn names(self) -> Seq<Seq<char>> {
        self.items().map_values(|e: (String, V)| e.0@)
    }

    /// Makes an empty map.
    pub fn new() -> (r: Self)
        ensures
            r@ == Map::<Seq<char>, V>::empty(),
            r.items() == Seq::<(String, V)>::empty(),
    {
        let r = StrMap { entries: Vec::new() };
        assert(r@ =~= Map::<Seq<char>, V>::empty());
        r
    }

    /// What every map keeps: its entries are sorted by key, and it maps the key
    /// of each entry to the value of that entry and no other key to anything.
    pub proof fn lemma_items(self)
        requires
            self.ordered(),
        ensures
            sorted_keys(self.items()),
            forall|i: int|
                0 <= i < self.items().len() ==> self@.contains_key(#[trigger] self.items()[i].0@)
                    && self@[self.items()[i].0@] == self.items()[i].1,
            forall|k: Seq<char>| #[trigger]
                self@.contains_key(k) ==> has_key(self.items(), k),
    {
        lemma_entries_map(self.entries@);
    }

    /// The map and its items are those of its entries.
    pub(crate) proof fn lemma_entries(self)
        ensures
            self.items() == self.entries@,
            self@ == entries_map(self.entries@),
    {
    }

    /// The number of entries.
    pub fn len(&self) -> (n: usize)
        ensures
            n == self.items().len(),
    {
        self.entries.len()
    }

    /// The key of an entry.
    pub fn key_at(&self, i: usize) -> (k: &String)
        requires
            i < self.items().len(),
        ensures
            *k == self.items()[i as int].0,
    {
        &self.entries[i].0
    }

    /// The value of an entry.
    pub fn value_at(&self, i: usize) -> (v: &V)
        requires
            i < self.items().len(),
        ensures
            *v == self.items()[i as int].1,
    {
        &self.entries[i].1
    }

    /// The number of entries whose keys precede `key`, which is where `key` belongs.
    fn position(&self, key: &str) -> (p: usize)
        ensures
            p <= self.entries@.len(),
            forall|i: int| 0 <= i < p ==> text_lt(#[trigger] self.entries@[i].0@, key@),
            forall|i: int|
                p <= i < self.entries@.len() ==> !text_lt(#[trigger] self.entries@[i].0@, key@),
    {
        proof {
            use_type_invariant(self);
        }
        let mut p: usize = 0;
        while p < self.entries.len() && precedes(self.entries[p].0.as_str(), key)
            invariant
                p <= self.entries@.len(),
                forall|i: int| 0 <= i < p ==> text_lt(#[trigger] self.entries@[i].0@, key@),
            decreases self.entries@.len() - p,
        {
            p = p + 1;
        }
        assert forall|i: int| p <= i < self.entries@.len() implies !text_lt(
            #[trigger] self.entries@[i].0@,
            key@,
        ) by {
            if text_lt(self.entries@[i].0@, key@) && p < i {
                lemma_text_lt_transitive(self.entries@[p as int].0@, self.entries@[i].0@, key@);
            }
        }
        p
    }

    /// The value of `key`, where the map has one.
    pub fn get(&self, key: &str) -> (r: Option<&V>)
        ensures
            r is Some <==> self@.contains_key(key@),
            r matches Some(v) ==> *v == self@[key@],
    {
        let p = self.position(key);
        proof {
            use_type_invariant(self);
            self.lemma_items();
        }
        if p < self.entries.len() && same_text(self.entries[p].0.as_str(), key) {
            assert(self.items()[p as int].0@ == key@);
            Some(&self.entries[p].1)
        } else {
            proof {
                if self@.contains_key(key@) {
                    let j = key_index(self.entries@, key@);
                    lemma_text_lt_irreflexive(key@);
                    assert(p <= j);
                    if p < j {
                        assert(text_lt(self.entries@[p as int].0@, self.entries@[j].0@));
                    }
                }
            }
            None
        }
    }

    /// Maps `key` to `value`, in place of what it was mapped to before.
    pub fn insert(&mut self, key: String, value: V)
        ensures
            final(self)@ == old(self)@.insert(key@, value),
    {
        proof {
            use_type_invariant(&*self);
            self.lemma_items();
        }
        let p = self.position(key.as_str());
        let mut entries: Vec<(String, V)> = Vec::new();
        std::mem::swap(&mut entries, &mut self.entries);
        let ghost old_entries = entries@;
        if p < entries.len() && same_text(entries[p].0.as_str(), key.as_str()) {
            entries.remove(p);
        }
        entries.insert(p, (key, value));
        proof {
            lemma_insert_sorted(old_entries, entries@, p as int, key, value);
        }
        self.entries = entries;
    }

    /// Takes `key` and its value out, where the map has one.
    pub fn remove(&mut self, key: &str) -> (r: Option<V>)
        ensures
            r is Some <==> old(self)@.contains_key(key@),
            r matches Some(v) ==> v == old(self)@[key@],
            final(self)@ == old(self)@.remove(key@),
    {
        proof {
            use_type_invariant(&*self);
            self.lemma_items();
        }
        let ghost before = self@;
        if self.get(key).is_none() {
            assert(before.remove(key@) =~= before);
            return None;
        }
        let p = self.position(key);
        let mut entries: Vec<(String, V)> = Vec::new();
        std::mem::swap(&mut entries, &mut self.entries);
        let ghost old_entries = entries@;
        proof {
            let j = key_index(old_entries, key@);
            lemma_text_lt_irreflexive(key@);
            assert(p <= j);
            if p < j {
                assert(text_lt(old_entries[p as int].0@, old_entries[j].0@));
            }
        }
        let (_, value) = entries.remove(p);
        proof {
            lemma_remove_sorted(old_entries, p as int);
        }
        self.entries = entries;
        Some(value)
    }
}

/// Taking an entry out keeps the entries sorted, and maps its key to nothing.
proof fn lemma_remove_sorted<V>(entries: Seq<(String, V)>, p: int)
    requires
        sorted_keys(entries),
        0 <= p < entries.len(),
    ensures
        sorted_keys(entries.remove(p)),
        entries_map(entries.remove(p)) == entries_map(entries).remove(entries[p].0@),
{
    let rest = entries.remove(p);
    let origin = |i: int|
        if i < p {
            i
        } else {
            i + 1
        };
    assert(forall|i: int| 0 <= i < rest.len() ==> #[trigger] rest[i] == entries[origin(i)]);
    assert(sorted_keys(rest)) by {
        assert forall|i: int, j: int| 0 <= i < j < rest.len() implies text_lt(
            #[trigger] rest[i].0@,
            #[trigger] rest[j].0@,
        ) by {
            assert(text_lt(entries[origin(i)].0@, entries[origin(j)].0@));
        }
    }
    lemma_entries_map(entries);
    lemma_entries_map(rest);
    let m = entries_map(entries).remove(entries[p].0@);
    assert forall|k: Seq<char>| #[trigger] m.contains_key(k) implies entries_map(rest).contains_key(
        k,
    ) && entries_map(rest)[k] == m[k] by {
        let j = key_index(entries, k);
        let i = if j < p {
            j
        } else {
            j - 1
        };
        assert(rest[i] == entries[j]);
        assert(rest[i].0@ == k);
    }
    assert forall|k: Seq<char>| #[trigger] entries_map(rest).contains_key(k) implies m.contains_key(
        k,
    ) by {
        let i = key_index(rest, k);
        assert(entries[origin(i)].0@ == k);
        assert(origin(i) != p);
    }
    assert(entries_map(rest) =~= m);
}

/// Putting an entry where its key belongs, in place of one with the same key,
/// keeps the entries sorted and changes what that key is mapped to and no more.
proof fn lemma_insert_sorted<V>(
    old_entries: Seq<(String, V)>,
    entries: Seq<(String, V)>,
    p: int,
    key: String,
    value: V,
)
    requires
        sorted_keys(old_entries),
        0 <= p <= old_entries.len(),
        forall|i: int| 0 <= i < p ==> text_lt(#[trigger] old_entries[i].0@, key@),
        forall|i: int| p <= i < old_entries.len() ==> !text_lt(#[trigger] old_entries[i].0@, key@),
        entries == (if p < old_entries.len() && old_entries[p].0@ == key@ {
            old_entries.remove(p).insert(p, (key, value))
        } else {
            old_entries.insert(p, (key, value))
        }),
    ensures
        sorted_keys(entries),
        entries_map(entries) == entries_map(old_entries).insert(key@, value),
{
    let replaced = p < old_entries.len() && old_entries[p].0@ == key@;
    // The index in the old entries of an entry that stays.
    let origin = |i: int|
        if i < p {
            i
        } else if replaced {
            i
        } else {
            i - 1
        };
    assert(entries.len() == old_entries.len() + if replaced { 0int } else { 1int });
    assert(forall|i: int|
        0 <= i < entries.len() && i != p ==> #[trigger] entries[i] == old_entries[origin(i)]);
    assert(entries[p] == (key, value));
    assert forall|i: int| p < i < entries.len() implies text_lt(
        key@,
        #[trigger] entries[i].0@,
    ) by {
        let k = old_entries[origin(i)].0@;
        lemma_text_lt_total(k, key@);
        if k == key@ {
            if !replaced {
                assert(origin(i) != p);
            }
            assert(text_lt(old_entries[p].0@, k));
        }
    }
    assert(sorted_keys(entries)) by {
        assert forall|i: int, j: int| 0 <= i < j < entries.len() implies text_lt(
            #[trigger] entries[i].0@,
            #[trigger] entries[j].0@,
        ) by {
            if i != p && j != p {
                assert(text_lt(old_entries[origin(i)].0@, old_entries[origin(j)].0@));
            }
        }
    }
    lemma_entries_map(entries);
    lemma_entries_map(old_entries);
    let m = entries_map(old_entries).insert(key@, value);
    assert forall|k: Seq<char>| #[trigger] m.contains_key(k) implies entries_map(
        entries,
    ).contains_key(k) && entries_map(entries)[k] == m[k] by {
        if k == key@ {
            assert(entries[p].0@ == k);
        } else {
            let j = key_index(old_entries, k);
            let i = if j < p || replaced {
                j
            } else {
                j + 1
            };
            assert(entries[i] == old_entries[j]);
            assert(entries[i].0@ == k);
        }
    }
    assert forall|k: Seq<char>| #[trigger]
        entries_map(entries).contains_key(k) implies m.contains_key(k) by {
        let i = key_index(entries, k);
        if i != p {
            assert(old_entries[origin(i)].0@ == k);
        }
    }
    assert(entries_map(entries) =~= m);
}

/// Whether strings are strictly increasing.
pub open spec fn sorted_texts(s: Seq<Seq<char>>) -> bool {
    forall|i: int, j: int| 0 <= i < j < s.len() ==> text_lt(#[trigger] s[i], #[trigger] s[j])
}

/// The elements of a set of strings in their order.
pub open spec fn sorted_listing(set: Set<Seq<char>>) -> Seq<Seq<char>> {
    choose|s: Seq<Seq<char>>| sorted_texts(s) && #[trigger] s.to_set() == set
}

/// There is one way only to list a set of strings in their order.
pub proof fn lemma_sorted_unique(a: Seq<Seq<char>>, b: Seq<Seq<char>>)
    requires
        sorted_texts(a),
        sorted_texts(b),
        a.to_set() == b.to_set(),
    ensures
        a == b,
    decreases a.len(),
{
    if a.len() == 0 {
        if b.len() > 0 {
            assert(b.to_set().contains(b[0]));
            assert(a.contains(b[0]));
        }
        assert(a =~= b);
    } else {
        assert(a.to_set().contains(a[0]));
        assert(b.contains(a[0]));
        let x = a.last();
        let y = b.last();
        assert(a.to_set().contains(x));
        assert(b.contains(x));
        assert(b.to_set().contains(y));
        assert(a.contains(y));
        let j = b.index_of(x);
        let i = a.index_of(y);
        if x != y {
            assert(text_lt(b[j], b[b.len() - 1]));
            assert(text_lt(a[i], a[a.len() - 1]));
            lemma_text_lt_transitive(x, y, x);
            lemma_text_lt_irreflexive(x);
        }
        let c = a.drop_last();
        let d = b.drop_last();
        lemma_text_lt_irreflexive(x);
        assert(c.to_set() =~= d.to_set()) by {
            assert forall|t: Seq<char>| #[trigger] c.to_set().contains(t) <==> d.to_set().contains(
                t,
            ) by {
                if c.contains(t) {
                    let k = c.index_of(t);
                    assert(text_lt(a[k], a[a.len() - 1]));
                    assert(a[k] == t);
                    assert(a.to_set().contains(t));
                    let n = b.index_of(t);
                    assert(d[n] == t);
                }
                if d.contains(t) {
                    let k = d.index_of(t);
                    assert(text_lt(b[k], b[b.len() - 1]));
                    assert(b[k] == t);
                    assert(b.to_set().contains(t));
                    let n = a.index_of(t);
                    assert(c[n] == t);
                }
            }
        }
        lemma_sorted_unique(c, d);
        assert(a =~= c.push(x));
        assert(b =~= d.push(y));
    }
}

impl<V> StrMap<V> {
    /// The keys of a map come in their order.
    pub proof fn lemma_names(self)
        requires
            self.ordered(),
        ensures
            sorted_texts(self.names()),
            self.names().to_set() == self@.dom(),
            self.names() == sorted_listing(self@.dom()),
    {
        self.lemma_items();
        let names = self.names();
        assert(sorted_texts(names)) by {
            assert forall|i: int, j: int| 0 <= i < j < names.len() implies text_lt(
                #[trigger] names[i],
                #[trigger] names[j],
            ) by {
                assert(text_lt(self.items()[i].0@, self.items()[j].0@));
            }
        }
        assert(names.to_set() =~= self@.dom()) by {
            assert forall|k: Seq<char>| #[trigger] names.to_set().contains(k) implies self@.contains_key(
                k,
            ) by {
                let i = names.index_of(k);
                assert(self@.contains_key(self.items()[i].0@));
            }
            assert forall|k: Seq<char>| #[trigger] self@.contains_key(k) implies names.contains(k) by {
                assert(names[key_index(self.items(), k)] == k);
            }
        }
        lemma_sorted_unique(names, sorted_listing(self@.dom()));
    }
}

/// Every finite set of strings can be listed in their order.
pub proof fn lemma_sorted_listing(set: Set<Seq<char>>)
    requires
        set.finite(),
    ensures
        sorted_texts(sorted_listing(set)),
        sorted_listing(set).to_set() == set,
    decreases set.len(),
{
    if set.len() == 0 {
        let s = Seq::<Seq<char>>::empty();
        assert(s.to_set() =~= set);
        assert(sorted_texts(s));
    } else {
        let x = set.choose();
        let rest = set.remove(x);
        lemma_sorted_listing(rest);
        let s = sorted_listing(rest);
        let p = lemma_place(s, x);
        assert forall|i: int| 0 <= i < s.len() implies #[trigger] s[i] != x by {
            assert(s.to_set().contains(s[i]));
        }
        let t = s.insert(p, x);
        assert(sorted_texts(t)) by {
            assert forall|i: int, j: int| 0 <= i < j < t.len() implies text_lt(
                #[trigger] t[i],
                #[trigger] t[j],
            ) by {
                let a = if i < p {
                    i
                } else {
                    i - 1
                };
                let b = if j < p {
                    j
                } else {
                    j - 1
                };
                if i == p {
                    lemma_text_lt_total(s[b], x);
                } else if j != p {
                    assert(text_lt(s[a], s[b]));
                }
            }
        }
        assert(t.to_set() =~= set) by {
            assert forall|y: Seq<char>| #[trigger] t.to_set().contains(y) <==> set.contains(y) by {
                if set.contains(y) && y != x {
                    assert(s.to_set().contains(y));
                    let i = s.index_of(y);
                    assert(t[if i < p { i } else { i + 1 }] == y);
                }
                if t.contains(y) {
                    let i = t.index_of(y);
                    if i != p {
                        let k = if i < p { i } else { i - 1 };
                        assert(s[k] == y);
                        assert(s.to_set().contains(y));
                    }
                }
                assert(t[p] == x);
            }
        }
    }
}

/// Where a string belongs among sorted strings.
proof fn lemma_place(s: Seq<Seq<char>>, x: Seq<char>) -> (p: int)
    requires
        sorted_texts(s),
    ensures
        0 <= p <= s.len(),
        forall|i: int| 0 <= i < p ==> text_lt(#[trigger] s[i], x),
        forall|i: int| p <= i < s.len() ==> !text_lt(#[trigger] s[i], x),
    decreases s.len(),
{
    if s.len() == 0 {
        0
    } else if text_lt(s.last(), x) {
        assert forall|i: int| 0 <= i < s.len() implies text_lt(#[trigger] s[i], x) by {
            if i < s.len() - 1 {
                lemma_text_lt_transitive(s[i], s[s.len() - 1], x);
            }
        }
        s.len() as int
    } else {
        let rest = s.drop_last();
        let p = lemma_place(rest, x);
        assert(forall|i: int| 0 <= i < rest.len() ==> #[trigger] s[i] == rest[i]);
        p
    }
}

} // verus!
