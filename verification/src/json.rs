//! JSON values: what front matter, page contexts and global data are made of.

use crate::text::{bytes_of, lemma_bytes_injective, lex_less, str_eq, str_less};
use vstd::prelude::*;

verus! {

/// `serde_json::Number`, which the library carries and never looks into.
#[verifier::external_type_specification]
#[verifier::external_body]
pub struct ExNumber(serde_json::Number);

/// A clone of a `serde_json::Number` is that number.
pub assume_specification[ <serde_json::Number as Clone>::clone ](n: &serde_json::Number) -> (r:
    serde_json::Number)
    ensures
        r == *n,
;

/// `serde_json::Value`, the form in which JSON passes between outside crates.
#[verifier::external_type_specification]
#[verifier::external_body]
pub struct ExValue(serde_json::Value);

/// What a `serde_json::Value` holds.
pub uninterp spec fn value_of(value: serde_json::Value) -> JsonView;

/// A JSON value.
#[derive(Debug, PartialEq)]
pub enum Json {
    Null,
    Bool(bool),
    Number(serde_json::Number),
    Str(String),
    Array(Vec<Json>),
    Object(JsonMap),
}

/// The fields of a JSON object, in the byte order of their keys, each key once. A
/// `serde_json::Map` has methods for values of type `serde_json::Value` alone, so it cannot hold a
/// [`Json`].
#[derive(Debug, PartialEq)]
pub struct JsonMap {
    entries: Vec<(String, Json)>,
}

/// The mathematical value of a [`Json`].
pub enum JsonView {
    Null,
    Bool(bool),
    Number(serde_json::Number),
    Str(Seq<char>),
    Array(Seq<JsonView>),
    Object(Fields),
}

/// The mathematical value of a [`JsonMap`]: its fields in order.
pub type Fields = Seq<(Seq<char>, JsonView)>;

impl Json {
    pub open spec fn view(&self) -> JsonView
        decreases self,
    {
        match self {
            Json::Null => JsonView::Null,
            Json::Bool(b) => JsonView::Bool(*b),
            Json::Number(n) => JsonView::Number(*n),
            Json::Str(s) => JsonView::Str(s@),
            Json::Array(items) => JsonView::Array(
                Seq::new(
                    items@.len(),
                    |i: int|
                        if 0 <= i < items@.len() {
                            items@[i].view()
                        } else {
                            JsonView::Null
                        },
                ),
            ),
            Json::Object(map) => JsonView::Object(map.view()),
        }
    }
}

impl JsonMap {
    pub closed spec fn view(&self) -> Fields
        decreases self,
    {
        Seq::new(
            self.entries@.len(),
            |i: int|
                if 0 <= i < self.entries@.len() {
                    (self.entries@[i].0@, self.entries@[i].1.view())
                } else {
                    arbitrary()
                },
        )
    }
}

/// A `serde_json::Value` as the library's own type, variant by variant. The fields of its objects
/// come in the byte order of their keys, as the `BTreeMap` of a `serde_json::Map` keeps them.
#[verifier::external_body]
pub(crate) fn from_value(value: serde_json::Value) -> (r: Json)
    ensures
        r@ == value_of(value),
{
    match value {
        serde_json::Value::Null => Json::Null,
        serde_json::Value::Bool(b) => Json::Bool(b),
        serde_json::Value::Number(n) => Json::Number(n),
        serde_json::Value::String(s) => Json::Str(s),
        serde_json::Value::Array(items) => Json::Array(items.into_iter().map(from_value).collect()),
        serde_json::Value::Object(fields) => {
            let entries = fields.into_iter().map(|(key, field)| (key, from_value(field)));
            Json::Object(JsonMap { entries: entries.collect() })
        },
    }
}

/// The library's own type as a `serde_json::Value`, variant by variant.
#[verifier::external_body]
pub(crate) fn to_value(json: &Json) -> (r: serde_json::Value)
    ensures
        value_of(r) == json@,
{
    match json {
        Json::Null => serde_json::Value::Null,
        Json::Bool(b) => serde_json::Value::Bool(*b),
        Json::Number(n) => serde_json::Value::Number(n.clone()),
        Json::Str(s) => serde_json::Value::String(s.clone()),
        Json::Array(items) => serde_json::Value::Array(items.iter().map(to_value).collect()),
        Json::Object(map) => {
            let fields = map.entries.iter().map(|(key, field)| (key.clone(), to_value(field)));
            serde_json::Value::Object(fields.collect())
        },
    }
}

/// The order of keys: that of their bytes.
pub open spec fn key_less(a: Seq<char>, b: Seq<char>) -> bool {
    lex_less(bytes_of(a), bytes_of(b))
}

/// The keys of `fields` strictly increase.
pub open spec fn sorted(fields: Fields) -> bool {
    forall|i: int, j: int|
        0 <= i < j < fields.len() ==> key_less(#[trigger] fields[i].0, #[trigger] fields[j].0)
}

/// The value under `key`.
pub open spec fn lookup(fields: Fields, key: Seq<char>) -> Option<JsonView> {
    if exists|i: int| 0 <= i < fields.len() && #[trigger] fields[i].0 == key {
        Some(fields[choose|i: int| 0 <= i < fields.len() && #[trigger] fields[i].0 == key].1)
    } else {
        None
    }
}

/// How many of the leading keys come before `key`.
pub open spec fn position(fields: Fields, key: Seq<char>) -> nat
    decreases fields.len(),
{
    if fields.len() > 0 && key_less(fields[0].0, key) {
        1 + position(fields.drop_first(), key)
    } else {
        0
    }
}

/// `fields` with `key` set to `value`: in the place of the field of that key, or in its own
/// place in the order.
pub open spec fn inserted(fields: Fields, key: Seq<char>, value: JsonView) -> Fields {
    let p = position(fields, key) as int;
    if p < fields.len() && fields[p].0 == key {
        fields.update(p, (key, value))
    } else {
        fields.insert(p, (key, value))
    }
}

/// The value under `key`, where `value` is an object that has one.
pub open spec fn member(value: JsonView, key: Seq<char>) -> Option<JsonView> {
    match value {
        JsonView::Object(fields) => lookup(fields, key),
        _ => None,
    }
}

proof fn lemma_less_irreflexive(a: Seq<u8>)
    ensures
        !lex_less(a, a),
    decreases a.len(),
{
    if a.len() > 0 {
        lemma_less_irreflexive(a.drop_first());
    }
}

proof fn lemma_less_transitive(a: Seq<u8>, b: Seq<u8>, c: Seq<u8>)
    requires
        lex_less(a, b),
        lex_less(b, c),
    ensures
        lex_less(a, c),
    decreases a.len(),
{
    if a.len() > 0 && b.len() > 0 && c.len() > 0 && a[0] == b[0] && b[0] == c[0] {
        lemma_less_transitive(a.drop_first(), b.drop_first(), c.drop_first());
    }
}

proof fn lemma_less_total(a: Seq<u8>, b: Seq<u8>)
    ensures
        lex_less(a, b) || lex_less(b, a) || a == b,
    decreases a.len(),
{
    if a.len() > 0 && b.len() > 0 && a[0] == b[0] {
        lemma_less_total(a.drop_first(), b.drop_first());
        if a.drop_first() == b.drop_first() {
            assert(a =~= seq![a[0]] + a.drop_first());
            assert(b =~= seq![b[0]] + b.drop_first());
        }
    } else if a.len() == 0 && b.len() == 0 {
        assert(a =~= b);
    }
}

/// The order of keys is a strict total order.
pub proof fn lemma_key_order(a: Seq<char>, b: Seq<char>, c: Seq<char>)
    ensures
        !key_less(a, a),
        key_less(a, b) && key_less(b, c) ==> key_less(a, c),
        key_less(a, b) || key_less(b, a) || a == b,
{
    lemma_less_irreflexive(bytes_of(a));
    if key_less(a, b) && key_less(b, c) {
        lemma_less_transitive(bytes_of(a), bytes_of(b), bytes_of(c));
    }
    lemma_less_total(bytes_of(a), bytes_of(b));
    if bytes_of(a) == bytes_of(b) {
        lemma_bytes_injective(a, b);
    }
}

/// Where the keys increase, a key is found at most once.
pub proof fn lemma_lookup_at(fields: Fields, i: int)
    requires
        sorted(fields),
        0 <= i < fields.len(),
    ensures
        lookup(fields, fields[i].0) == Some(fields[i].1),
{
    let key = fields[i].0;
    let k = choose|k: int| 0 <= k < fields.len() && #[trigger] fields[k].0 == key;
    lemma_key_order(key, key, key);
    assert(k == i);
}

proof fn lemma_position(fields: Fields, key: Seq<char>)
    ensures
        position(fields, key) <= fields.len(),
        forall|i: int| 0 <= i < position(fields, key) ==> key_less(#[trigger] fields[i].0, key),
        position(fields, key) < fields.len() ==> !key_less(
            fields[position(fields, key) as int].0,
            key,
        ),
    decreases fields.len(),
{
    if fields.len() > 0 && key_less(fields[0].0, key) {
        let rest = fields.drop_first();
        lemma_position(rest, key);
        let p = position(fields, key);
        assert forall|i: int| 0 <= i < p implies key_less(#[trigger] fields[i].0, key) by {
            if i > 0 {
                assert(rest[i - 1] == fields[i]);
            }
        }
        if p < fields.len() {
            assert(rest[p - 1] == fields[p as int]);
        }
    }
}

proof fn lemma_position_is(fields: Fields, key: Seq<char>, p: int)
    requires
        0 <= p <= fields.len(),
        forall|i: int| 0 <= i < p ==> key_less(#[trigger] fields[i].0, key),
        p < fields.len() ==> !key_less(fields[p].0, key),
    ensures
        position(fields, key) == p,
{
    lemma_position(fields, key);
}

/// Where the keys increase, the position of a key is where it stands.
pub proof fn lemma_position_at(fields: Fields, i: int)
    requires
        sorted(fields),
        0 <= i < fields.len(),
    ensures
        position(fields, fields[i].0) == i,
{
    lemma_key_order(fields[i].0, fields[i].0, fields[i].0);
    lemma_position_is(fields, fields[i].0, i);
}

/// A read gives back what the last write under its key wrote, writing under one key changes no
/// other, and the order of the keys is kept.
pub proof fn law_insert_lookup(fields: Fields, key: Seq<char>, value: JsonView, other: Seq<char>)
    requires
        sorted(fields),
    ensures
        sorted(inserted(fields, key, value)),
        lookup(inserted(fields, key, value), other) == if other == key {
            Some(value)
        } else {
            lookup(fields, other)
        },
{
    let p = position(fields, key) as int;
    let new = inserted(fields, key, value);
    let replaces = p < fields.len() && fields[p].0 == key;
    lemma_position(fields, key);
    assert forall|i: int, j: int| 0 <= i < j < new.len() implies key_less(
        #[trigger] new[i].0,
        #[trigger] new[j].0,
    ) by {
        if !replaces {
            if p < fields.len() {
                lemma_key_order(fields[p].0, key, key);
                assert(key_less(key, fields[p].0));
            }
            if i < p {
                assert(new[i] == fields[i]);
            } else if i > p {
                assert(new[i] == fields[i - 1]);
            }
            if j < p {
                assert(new[j] == fields[j]);
            } else if j > p {
                assert(new[j] == fields[j - 1]);
                if i == p && j - 1 > p {
                    lemma_key_order(key, fields[p].0, fields[j - 1].0);
                }
                if i == p && j - 1 == p {
                    assert(key_less(key, fields[p].0));
                }
            }
        } else {
            if i != p {
                assert(new[i] == fields[i]);
            }
            if j != p {
                assert(new[j] == fields[j]);
            }
        }
    }
    assert(new[p] == (key, value));
    if other == key {
        lemma_lookup_at(new, p);
    } else {
        if exists|i: int| 0 <= i < fields.len() && #[trigger] fields[i].0 == other {
            let i = choose|i: int| 0 <= i < fields.len() && #[trigger] fields[i].0 == other;
            let k = if replaces || i < p { i } else { i + 1 };
            assert(new[k] == fields[i]);
            lemma_lookup_at(new, k);
            lemma_lookup_at(fields, i);
        } else if exists|i: int| 0 <= i < new.len() && #[trigger] new[i].0 == other {
            let i = choose|i: int| 0 <= i < new.len() && #[trigger] new[i].0 == other;
            let k = if replaces || i < p { i } else { i - 1 };
            assert(new[i] == fields[k]);
        }
    }
}

/// Two objects with the same value under every key are the same object.
pub proof fn law_fields_extensional(a: Fields, b: Fields)
    requires
        sorted(a),
        sorted(b),
        forall|key: Seq<char>| #[trigger] lookup(a, key) == lookup(b, key),
    ensures
        a == b,
    decreases a.len(),
{
    if a.len() > 0 && b.len() > 0 {
        let ka = a[0].0;
        let kb = b[0].0;
        lemma_lookup_at(a, 0);
        lemma_lookup_at(b, 0);
        let i = choose|i: int| 0 <= i < b.len() && #[trigger] b[i].0 == ka;
        let j = choose|j: int| 0 <= j < a.len() && #[trigger] a[j].0 == kb;
        assert(lookup(b, ka) is Some);
        assert(lookup(a, kb) is Some);
        lemma_key_order(ka, kb, ka);
        if i > 0 && j > 0 {
            assert(key_less(kb, ka));
            assert(key_less(ka, kb));
        }
        assert(ka == kb);
        assert(a[0] == b[0]);
        let ra = a.drop_first();
        let rb = b.drop_first();
        assert forall|key: Seq<char>| #[trigger] lookup(ra, key) == lookup(rb, key) by {
            lemma_lookup_rest(a, key);
            lemma_lookup_rest(b, key);
            assert(lookup(a, key) == lookup(b, key));
        }
        law_fields_extensional(ra, rb);
        assert(a =~= seq![a[0]] + ra);
        assert(b =~= seq![b[0]] + rb);
    } else if a.len() > 0 {
        lemma_lookup_at(a, 0);
        assert(lookup(b, a[0].0) is Some);
    } else if b.len() > 0 {
        lemma_lookup_at(b, 0);
        assert(lookup(a, b[0].0) is Some);
    } else {
        assert(a =~= b);
    }
}

proof fn lemma_lookup_rest(fields: Fields, key: Seq<char>)
    requires
        sorted(fields),
        fields.len() > 0,
    ensures
        sorted(fields.drop_first()),
        lookup(fields.drop_first(), key) == if key == fields[0].0 {
            None
        } else {
            lookup(fields, key)
        },
{
    let rest = fields.drop_first();
    assert forall|i: int, j: int| 0 <= i < j < rest.len() implies key_less(
        #[trigger] rest[i].0,
        #[trigger] rest[j].0,
    ) by {
        assert(rest[i] == fields[i + 1]);
        assert(rest[j] == fields[j + 1]);
    }
    if exists|i: int| 0 <= i < rest.len() && #[trigger] rest[i].0 == key {
        let i = choose|i: int| 0 <= i < rest.len() && #[trigger] rest[i].0 == key;
        assert(rest[i] == fields[i + 1]);
        lemma_lookup_at(rest, i);
        lemma_lookup_at(fields, i + 1);
        lemma_key_order(key, key, key);
    } else if exists|i: int| 0 <= i < fields.len() && #[trigger] fields[i].0 == key {
        let i = choose|i: int| 0 <= i < fields.len() && #[trigger] fields[i].0 == key;
        if i > 0 {
            assert(rest[i - 1] == fields[i]);
        }
    }
}

impl JsonMap {
    /// The keys of an object increase.
    #[verifier::type_invariant]
    pub open spec fn keys_increase(self) -> bool {
        sorted(self.view())
    }

    /// An object with no field.
    pub fn new() -> (r: JsonMap)
        ensures
            r@ == Seq::<(Seq<char>, JsonView)>::empty(),
    {
        let r = JsonMap { entries: Vec::new() };
        assert(r@ =~= Seq::<(Seq<char>, JsonView)>::empty());
        r
    }

    /// How many fields there are.
    pub fn len(&self) -> (r: usize)
        ensures
            r == self@.len(),
    {
        self.entries.len()
    }

    /// The key of the field at `index`.
    pub fn key_at(&self, index: usize) -> (r: &str)
        requires
            index < self@.len(),
        ensures
            r@ == self@[index as int].0,
    {
        self.entries[index].0.as_str()
    }

    /// The value of the field at `index`.
    pub fn value_at(&self, index: usize) -> (r: &Json)
        requires
            index < self@.len(),
        ensures
            r@ == self@[index as int].1,
    {
        &self.entries[index].1
    }

    /// The value under `key`.
    pub fn get(&self, key: &str) -> (r: Option<&Json>)
        ensures
            match r {
                Some(value) => lookup(self@, key@) == Some(value@),
                None => lookup(self@, key@) is None,
            },
    {
        proof {
            use_type_invariant(self);
        }
        let mut i: usize = 0;
        while i < self.entries.len()
            invariant
                sorted(self@),
                i <= self.entries.len(),
                forall|j: int| 0 <= j < i ==> #[trigger] self@[j].0 != key@,
            decreases self.entries.len() - i,
        {
            if str_eq(self.entries[i].0.as_str(), key) {
                proof {
                    assert(self@[i as int].0 == key@);
                    lemma_lookup_at(self@, i as int);
                }
                return Some(&self.entries[i].1);
            }
            i += 1;
        }
        None
    }

    /// Sets `key` to `value`.
    pub fn insert(&mut self, key: String, value: Json)
        ensures
            final(self)@ == inserted(old(self)@, key@, value@),
            forall|other: Seq<char>|
                #![trigger lookup(final(self)@, other)]
                lookup(final(self)@, other) == if other == key@ {
                    Some(value@)
                } else {
                    lookup(old(self)@, other)
                },
    {
        proof {
            use_type_invariant(&*self);
        }
        let ghost before = self@;
        let mut entries: Vec<(String, Json)> = Vec::new();
        std::mem::swap(&mut entries, &mut self.entries);
        let mut p: usize = 0;
        while p < entries.len() && str_less(entries[p].0.as_str(), key.as_str())
            invariant
                p <= entries.len(),
                entries@.len() == before.len(),
                forall|j: int| 0 <= j < before.len() ==> #[trigger] before[j].0 == entries@[j].0@,
                forall|j: int| 0 <= j < p ==> key_less(#[trigger] before[j].0, key@),
            decreases entries.len() - p,
        {
            proof {
                assert(before[p as int].0 == entries@[p as int].0@);
            }
            p += 1;
        }
        proof {
            if p < entries.len() {
                assert(before[p as int].0 == entries@[p as int].0@);
            }
            lemma_position_is(before, key@, p as int);
            assert forall|other: Seq<char>| #[trigger]
                lookup(inserted(before, key@, value@), other) == if other == key@ {
                    Some(value@)
                } else {
                    lookup(before, other)
                } by {
                law_insert_lookup(before, key@, value@, other);
            }
            law_insert_lookup(before, key@, value@, key@);
        }
        if p < entries.len() && str_eq(entries[p].0.as_str(), key.as_str()) {
            entries[p] = (key, value);
        } else {
            entries.insert(p, (key, value));
        }
        let ghost after = JsonMap { entries };
        proof {
            assert(after@ =~= inserted(before, key@, value@));
        }
        self.entries = entries;
    }

    /// A copy of the object.
    pub fn duplicate(&self) -> (r: JsonMap)
        ensures
            r@ == self@,
        decreases self,
    {
        proof {
            use_type_invariant(self);
        }
        let mut entries: Vec<(String, Json)> = Vec::new();
        let mut i: usize = 0;
        while i < self.entries.len()
            invariant
                i <= self.entries.len(),
                entries@.len() == i,
                forall|j: int| 0 <= j < i ==> (#[trigger] entries@[j]).0@ == self@[j].0
                    && entries@[j].1@ == self@[j].1,
            decreases self.entries.len() - i,
        {
            let key = self.entries[i].0.clone();
            let value = self.entries[i].1.duplicate();
            entries.push((key, value));
            i += 1;
        }
        let ghost r = JsonMap { entries };
        proof {
            assert(r@ =~= self@);
        }
        JsonMap { entries }
    }
}

impl Json {
    /// The value under `key`, where the value is an object that has one.
    pub fn get(&self, key: &str) -> (r: Option<&Json>)
        ensures
            match r {
                Some(value) => member(self@, key@) == Some(value@),
                None => member(self@, key@) is None,
            },
    {
        match self {
            Json::Object(map) => map.get(key),
            _ => None,
        }
    }

    /// The text of a string value.
    pub fn as_str(&self) -> (r: Option<&str>)
        ensures
            match r {
                Some(text) => self@ == JsonView::Str(text@),
                None => !(self@ is Str),
            },
    {
        match self {
            Json::Str(text) => Some(text.as_str()),
            _ => None,
        }
    }

    /// A copy of the value.
    pub fn duplicate(&self) -> (r: Json)
        ensures
            r@ == self@,
        decreases self,
    {
        match self {
            Json::Null => Json::Null,
            Json::Bool(b) => Json::Bool(*b),
            Json::Number(n) => Json::Number(n.clone()),
            Json::Str(s) => Json::Str(s.clone()),
            Json::Array(items) => {
                let mut copy: Vec<Json> = Vec::new();
                let mut i: usize = 0;
                while i < items.len()
                    invariant
                        i <= items.len(),
                        copy@.len() == i,
                        decreases_to!(self => items),
                        forall|j: int| 0 <= j < i ==> (#[trigger] copy@[j])@ == items@[j]@,
                    decreases items.len() - i,
                {
                    let item = items[i].duplicate();
                    copy.push(item);
                    i += 1;
                }
                let r = Json::Array(copy);
                proof {
                    assert(r@->Array_0 =~= self@->Array_0);
                }
                r
            },
            Json::Object(map) => Json::Object(map.duplicate()),
        }
    }
}

/// What is found under a key is the value of a field with that key, and nothing is found exactly
/// where no field has it. Only objects have members.
pub proof fn law_lookup_finds_fields(fields: Fields, key: Seq<char>, other: JsonView)
    ensures
        match lookup(fields, key) {
            Some(value) => fields.contains((key, value)),
            None => forall|i: int| 0 <= i < fields.len() ==> (#[trigger] fields[i]).0 != key,
        },
        sorted(fields) ==> forall|i: int|
            0 <= i < fields.len() && (#[trigger] fields[i]).0 == key ==> lookup(fields, key)
                == Some(fields[i].1),
        member(JsonView::Object(fields), key) == lookup(fields, key),
        !(other is Object) ==> member(other, key) is None,
{
    if exists|i: int| 0 <= i < fields.len() && #[trigger] fields[i].0 == key {
        let i = choose|i: int| 0 <= i < fields.len() && #[trigger] fields[i].0 == key;
        assert(fields[i] == (key, fields[i].1));
        assert(fields.contains((key, fields[i].1)));
        if sorted(fields) {
            assert forall|j: int|
                0 <= j < fields.len() && (#[trigger] fields[j]).0 == key implies lookup(fields, key)
                == Some(fields[j].1) by {
                lemma_lookup_at(fields, j);
            }
        }
    }
}

/// A value holds what it is made of: a text its characters, a list its items in order, an object
/// its fields.
pub proof fn law_values_hold_their_parts(value: Json)
    ensures
        match value {
            Json::Null => value@ == JsonView::Null,
            Json::Bool(b) => value@ == JsonView::Bool(b),
            Json::Number(n) => value@ == JsonView::Number(n),
            Json::Str(s) => value@ == JsonView::Str(s@),
            Json::Array(items) => value@ matches JsonView::Array(list) && list.len() == items@.len()
                && forall|i: int| 0 <= i < items@.len() ==> #[trigger] list[i] == items@[i]@,
            Json::Object(map) => value@ == JsonView::Object(map@),
        },
{
}

/// The fields of an object are its entries, in order, each with its key and its value.
proof fn law_fields_are_entries(map: JsonMap)
    ensures
        map@.len() == map.entries@.len(),
        forall|i: int|
            0 <= i < map@.len() ==> #[trigger] map@[i] == (
                map.entries@[i].0@,
                map.entries@[i].1@,
            ),
{
}

} // verus!
