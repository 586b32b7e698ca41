//! The value tree, and the mathematical tree that it stands for.

use vstd::prelude::*;
use indexmap::IndexMap;
use crate::number::Number;

verus! {

/// A JSON value as a mathematical tree. An object is the sequence of its
/// entries, in the order in which their keys were first inserted.
pub ghost enum Json {
    Null,
    Bool(bool),
    Number(Number),
    String(Seq<char>),
    Object(Seq<(Seq<char>, Json)>),
    Array(Seq<Json>),
}

/// The position of the first entry with the given key.
pub open spec fn key_index(entries: Seq<(Seq<char>, Json)>, key: Seq<char>) -> Option<int>
    decreases entries.len(),
{
    if entries.len() == 0 {
        None
    } else {
        match key_index(entries.drop_last(), key) {
            Some(index) => Some(index),
            None => if entries.last().0 == key {
                Some(entries.len() - 1)
            } else {
                None
            },
        }
    }
}

/// The entries after `key` was given `value`: in the place of the entry that
/// had the key, or behind all others where none had it.
pub open spec fn inserted(entries: Seq<(Seq<char>, Json)>, key: Seq<char>, value: Json) -> Seq<
    (Seq<char>, Json),
> {
    match key_index(entries, key) {
        Some(index) => entries.update(index, (key, value)),
        None => entries.push((key, value)),
    }
}

/// Whether no two entries have the same key.
pub open spec fn distinct_keys(entries: Seq<(Seq<char>, Json)>) -> bool {
    forall|i: int, j: int|
        0 <= i < j < entries.len() ==> (#[trigger] entries[i]).0 != (#[trigger] entries[j]).0
}

/// Whether no object of a value has a key twice.
pub open spec fn distinct_throughout(value: Json) -> bool
    decreases value,
{
    match value {
        Json::Object(entries) => {
            &&& distinct_keys(entries)
            &&& forall|i: int|
                0 <= i < entries.len() ==> distinct_throughout((#[trigger] entries[i]).1)
        },
        Json::Array(items) => forall|i: int|
            0 <= i < items.len() ==> distinct_throughout(#[trigger] items[i]),
        _ => true,
    }
}

/// The first entry with a key is where the key is, and nowhere before.
pub proof fn lemma_key_index(entries: Seq<(Seq<char>, Json)>, key: Seq<char>)
    ensures
        match key_index(entries, key) {
            Some(index) => 0 <= index < entries.len() && entries[index].0 == key && forall|i: int|
                0 <= i < index ==> (#[trigger] entries[i]).0 != key,
            None => forall|i: int| 0 <= i < entries.len() ==> (#[trigger] entries[i]).0 != key,
        },
    decreases entries.len(),
{
    if entries.len() > 0 {
        lemma_key_index(entries.drop_last(), key);
        assert(forall|i: int|
            0 <= i < entries.len() - 1 ==> #[trigger] entries[i] == entries.drop_last()[i]);
    }
}

/// Giving a key a value keeps the keys distinct, and the key then has that
/// value.
pub proof fn lemma_inserted(entries: Seq<(Seq<char>, Json)>, key: Seq<char>, value: Json)
    requires
        distinct_keys(entries),
    ensures
        distinct_keys(inserted(entries, key, value)),
        key_index(inserted(entries, key, value), key) matches Some(index) && inserted(
            entries,
            key,
            value,
        )[index] == (key, value),
{
    lemma_key_index(entries, key);
    let after = inserted(entries, key, value);
    lemma_key_index(after, key);
    if let Some(index) = key_index(entries, key) {
        assert(after[index].0 == key);
    }
}

/// An insertion-ordered mapping from keys to values, the entries of a JSON
/// object. It keeps an `indexmap::IndexMap`.
#[verifier::external_body]
#[derive(Debug, PartialEq)]
pub struct Object {
    entries: IndexMap<String, Value>,
}

/// The entries of an object, in their order: each key with the tree that
/// its value stands for.
pub uninterp spec fn object_entries(object: Object) -> Seq<(Seq<char>, Json)>;

/// `IndexMap::new` makes a map without entries.
#[verifier::external_body]
fn object_new() -> (result: Object)
    ensures
        object_entries(result) == Seq::<(Seq<char>, Json)>::empty(),
{
    Object { entries: IndexMap::new() }
}

/// `IndexMap::len` gives the number of entries.
#[verifier::external_body]
fn object_len(object: &Object) -> (result: usize)
    ensures
        result == object_entries(*object).len(),
{
    object.entries.len()
}

/// `IndexMap::insert` gives the key its new value where the map has the key,
/// and keeps the entry in its place; else it adds the entry behind all
/// others. The map then has no key twice, as a map never has.
#[verifier::external_body]
fn object_insert(object: &mut Object, key: String, value: Value)
    ensures
        object_entries(*final(object)) == inserted(object_entries(*old(object)), key@, value@),
        distinct_keys(object_entries(*final(object))),
{
    object.entries.insert(key, value);
}

/// `IndexMap::get_index` gives the entry at a position below the length.
/// No other entry of the map has its key.
#[verifier::external_body]
pub(crate) fn object_get_index(object: &Object, index: usize) -> (result: (&String, &Value))
    requires
        index < object_entries(*object).len(),
    ensures
        result.0@ == object_entries(*object)[index as int].0,
        result.1@ == object_entries(*object)[index as int].1,
        forall|other: int|
            0 <= other < object_entries(*object).len() && other != index ==> (
            #[trigger] object_entries(*object)[other]).0 != result.0@,
{
    object.entries.get_index(index).unwrap()
}

/// `IndexMap::get` gives the value of the entry with the key, if there is
/// one.
#[verifier::external_body]
fn object_get<'a>(object: &'a Object, key: &str) -> (result: Option<&'a Value>)
    ensures
        match key_index(object_entries(*object), key@) {
            Some(index) => result matches Some(value) && value@ == object_entries(
                *object,
            )[index].1,
            None => result is None,
        },
{
    object.entries.get(key)
}

impl View for Object {
    type V = Seq<(Seq<char>, Json)>;

    open spec fn view(&self) -> Seq<(Seq<char>, Json)> {
        object_entries(*self)
    }
}

impl Object {
    /// An object without entries.
    pub fn new() -> (result: Self)
        ensures
            result@ == Seq::<(Seq<char>, Json)>::empty(),
            distinct_keys(result@),
    {
        object_new()
    }

    /// The number of entries.
    pub fn len(&self) -> (result: usize)
        ensures
            result == self@.len(),
    {
        object_len(self)
    }

    /// Gives `key` the value `value`. A key that the object has keeps its
    /// place; a new one comes last.
    pub fn insert(&mut self, key: String, value: Value)
        ensures
            final(self)@ == inserted(old(self)@, key@, value@),
            distinct_keys(final(self)@),
    {
        object_insert(self, key, value)
    }

    /// The entry at `index`, or `None` where the object has fewer entries.
    /// No other entry has the key of the one at `index`.
    pub fn get_index(&self, index: usize) -> (result: Option<(&String, &Value)>)
        ensures
            index < self@.len() ==> (result matches Some(entry) && entry.0@ == self@[index as int].0
                && entry.1@ == self@[index as int].1),
            index < self@.len() ==> forall|other: int|
                0 <= other < self@.len() && other != index ==> (#[trigger] self@[other]).0
                    != self@[index as int].0,
            index >= self@.len() ==> result is None,
    {
        if index < object_len(self) {
            Some(object_get_index(self, index))
        } else {
            None
        }
    }

    /// The value of `key`, or `None` where the object has no such key.
    pub fn get(&self, key: &str) -> (result: Option<&Value>)
        ensures
            match key_index(self@, key@) {
                Some(index) => result matches Some(value) && value@ == self@[index].1,
                None => result is None,
            },
    {
        object_get(self, key)
    }
}

/// A JSON value. Each container owns its children.
#[derive(Debug, PartialEq)]
pub enum Value {
    Null,
    Bool(bool),
    Number(Number),
    String(String),
    Object(Object),
    Array(Vec<Value>),
}

impl View for Value {
    type V = Json;

    open spec fn view(&self) -> Json
        decreases self,
    {
        match self {
            Value::Null => Json::Null,
            Value::Bool(value) => Json::Bool(*value),
            Value::Number(number) => Json::Number(*number),
            Value::String(string) => Json::String(string@),
            Value::Object(object) => Json::Object(object_entries(*object)),
            Value::Array(items) => Json::Array(items_view(items@)),
        }
    }
}

/// The trees that the items of an array stand for.
pub open spec fn items_view(items: Seq<Value>) -> Seq<Json>
    decreases items,
{
    if items.len() == 0 {
        Seq::empty()
    } else {
        items_view(items.drop_last()).push(items.last().view())
    }
}

/// The trees of the items are as many as the items, each that of its item.
pub proof fn lemma_items_view(items: Seq<Value>)
    ensures
        items_view(items).len() == items.len(),
        forall|k: int| 0 <= k < items.len() ==> #[trigger] items_view(items)[k] == items[k]@,
    decreases items.len(),
{
    if items.len() > 0 {
        lemma_items_view(items.drop_last());
        assert(items_view(items) == items_view(items.drop_last()).push(items.last().view()));
    }
}

} // verus!
