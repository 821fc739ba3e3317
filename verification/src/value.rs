//! The value model: what a decoded document is, and how it is read.

use vstd::prelude::*;
use vstd::string::StringExecFns;

verus! {

/// The mathematical content of a value. A number is the bit pattern of its
/// double; an object is its entries in the order in which they were inserted.
pub enum Json {
    Null,
    Str(Seq<char>),
    Boolean(bool),
    Num(u64),
    Array(Seq<Json>),
    Object(Seq<(Seq<char>, Json)>),
}

/// Whether some entry carries `key`.
pub open spec fn has_key(entries: Seq<(Seq<char>, Json)>, key: Seq<char>) -> bool {
    exists|i: int| 0 <= i < entries.len() && (#[trigger] entries[i]).0 == key
}

/// The index of the first entry that carries `key`.
pub open spec fn key_index(entries: Seq<(Seq<char>, Json)>, key: Seq<char>) -> int {
    choose|i: int|
        0 <= i < entries.len() && (#[trigger] entries[i]).0 == key && forall|j: int|
            0 <= j < i ==> (#[trigger] entries[j]).0 != key
}

/// The value stored under `key`, if any.
pub open spec fn lookup(entries: Seq<(Seq<char>, Json)>, key: Seq<char>) -> Option<Json> {
    if has_key(entries, key) {
        Some(entries[key_index(entries, key)].1)
    } else {
        None
    }
}

/// The entries after storing `value` under `key`: an entry with that key
/// keeps its place and takes the new value, a new key goes to the end.
#[verifier::opaque]
pub open spec fn store(entries: Seq<(Seq<char>, Json)>, key: Seq<char>, value: Json) -> Seq<
    (Seq<char>, Json),
> {
    if has_key(entries, key) {
        entries.update(key_index(entries, key), (key, value))
    } else {
        entries.push((key, value))
    }
}

/// No key occurs twice among the entries.
pub open spec fn distinct_keys(entries: Seq<(Seq<char>, Json)>) -> bool {
    forall|i: int, j: int|
        0 <= i < j < entries.len() ==> (#[trigger] entries[i]).0 != (#[trigger] entries[j]).0
}

impl Json {
    /// Every object inside the value, at any depth, has distinct keys.
    pub open spec fn well_formed(self) -> bool
        decreases self,
    {
        match self {
            Json::Array(items) => forall|i: int|
                0 <= i < items.len() ==> (#[trigger] items[i]).well_formed(),
            Json::Object(entries) => distinct_keys(entries) && forall|i: int|
                0 <= i < entries.len() ==> (#[trigger] entries[i]).1.well_formed(),
            _ => true,
        }
    }

    /// The member stored under `key`, when the value is an object that has it.
    pub open spec fn member(self, key: Seq<char>) -> Option<Json> {
        match self {
            Json::Object(entries) => lookup(entries, key),
            _ => None,
        }
    }
}

/// A decoded value. `Num` holds the bit pattern of a double.
#[derive(Debug, PartialEq)]
pub enum JsonValue {
    Null,
    Str(String),
    Boolean(bool),
    Num(u64),
    Array(Vec<JsonValue>),
    Object(Vec<(String, JsonValue)>),
}

/// The contents of a sequence of values.
pub open spec fn items_view(items: Seq<JsonValue>) -> Seq<Json> {
    Seq::new(items.len(), |i: int| items[i]@)
}

/// The contents of a sequence of object entries.
pub open spec fn entries_view(entries: Seq<(String, JsonValue)>) -> Seq<(Seq<char>, Json)> {
    Seq::new(entries.len(), |i: int| (entries[i].0@, entries[i].1@))
}

/// The content of a value, by recursion over its structure.
pub open spec fn content(v: JsonValue) -> Json
    decreases v,
{
    match v {
        JsonValue::Null => Json::Null,
        JsonValue::Str(s) => Json::Str(s@),
        JsonValue::Boolean(b) => Json::Boolean(b),
        JsonValue::Num(n) => Json::Num(n),
        JsonValue::Array(a) => Json::Array(
            Seq::new(
                a@.len(),
                |i: int|
                    if 0 <= i < a@.len() {
                        content(a@[i])
                    } else {
                        Json::Null
                    },
            ),
        ),
        JsonValue::Object(o) => Json::Object(
            Seq::new(
                o@.len(),
                |i: int|
                    if 0 <= i < o@.len() {
                        (o@[i].0@, content(o@[i].1))
                    } else {
                        (Seq::empty(), Json::Null)
                    },
            ),
        ),
    }
}

impl View for JsonValue {
    type V = Json;

    open spec fn view(&self) -> Json {
        content(*self)
    }
}

/// An array's content is the content of its items.
pub proof fn lemma_array_view(a: Vec<JsonValue>)
    ensures
        JsonValue::Array(a)@ == Json::Array(items_view(a@)),
{
    let v = JsonValue::Array(a);
    assert(v@->Array_0 =~= items_view(a@));
}

/// An object's content is the content of its entries.
pub proof fn lemma_object_view(o: Vec<(String, JsonValue)>)
    ensures
        JsonValue::Object(o)@ == Json::Object(entries_view(o@)),
{
    assert(JsonValue::Object(o)@->Object_0 =~= entries_view(o@));
}

impl JsonValue {
/// Whether the value is null.
    pub fn is_null(&self) -> (r: bool)
        ensures
            r == (self@ is Null),
    {
        matches!(self, JsonValue::Null)
    }

/// The text of a string.
    pub fn as_str(&self) -> (r: Option<&str>)
        ensures
            match r {
                Some(s) => self@ == Json::Str(s@),
                None => !(self@ is Str),
            },
    {
        match self {
            JsonValue::Str(s) => Some(s.as_str()),
            _ => None,
        }
    }

/// The truth value of a boolean.
    pub fn as_boolean(&self) -> (r: Option<&bool>)
        ensures
            match r {
                Some(b) => self@ == Json::Boolean(*b),
                None => !(self@ is Boolean),
            },
    {
        match self {
            JsonValue::Boolean(b) => Some(b),
            _ => None,
        }
    }

    /// The bit pattern of the number.
    pub fn as_num(&self) -> (r: Option<&u64>)
        ensures
            match r {
                Some(n) => self@ == Json::Num(*n),
                None => !(self@ is Num),
            },
    {
        match self {
            JsonValue::Num(n) => Some(n),
            _ => None,
        }
    }

/// The items of an array.
    pub fn as_array(&self) -> (r: Option<&Vec<JsonValue>>)
        ensures
            match r {
                Some(a) => self@ == Json::Array(items_view(a@)),
                None => !(self@ is Array),
            },
    {
        match self {
            JsonValue::Array(a) => {
                proof {
                    lemma_array_view(*a);
                }
                Some(a)
            },
            _ => None,
        }
    }

/// The entries of an object, in the order in which their keys came.
    pub fn as_object(&self) -> (r: Option<&Vec<(String, JsonValue)>>)
        ensures
            match r {
                Some(o) => self@ == Json::Object(entries_view(o@)),
                None => !(self@ is Object),
            },
    {
        match self {
            JsonValue::Object(o) => {
                proof {
                    lemma_object_view(*o);
                }
                Some(o)
            },
            _ => None,
        }
    }
}

/// The index of the first entry that carries `key`.
pub fn find_key(entries: &Vec<(String, JsonValue)>, key: &String) -> (r: Option<usize>)
    ensures
        match r {
            Some(i) => has_key(entries_view(entries@), key@) && i == key_index(
                entries_view(entries@),
                key@,
            ) && i < entries.len(),
            None => !has_key(entries_view(entries@), key@),
        },
{
    let ghost view = entries_view(entries@);
    let mut i: usize = 0;
    while i < entries.len()
        invariant
            i <= entries.len(),
            view == entries_view(entries@),
            forall|j: int| 0 <= j < i ==> (#[trigger] view[j]).0 != key@,
        decreases entries.len() - i,
    {
        if entries[i].0 == *key {
            assert(view[i as int].0 == key@);
            return Some(i);
        }
        i += 1;
    }
    None
}

/// Stores `value` under `key`: an entry with that key keeps its place and
/// takes the new value, a new key goes to the end.
pub fn insert_entry(entries: &mut Vec<(String, JsonValue)>, key: String, value: JsonValue)
    ensures
        entries_view(final(entries)@) == store(entries_view(old(entries)@), key@, value@),
{
    reveal(store);
    let ghost before = entries_view(entries@);
    match find_key(entries, &key) {
        Some(i) => {
            entries.set(i, (key, value));
            assert(entries_view(entries@) =~= before.update(i as int, (key@, value@)));
        },
        None => {
            entries.push((key, value));
            assert(entries_view(entries@) =~= before.push((key@, value@)));
        },
    }
}

impl JsonValue {
    /// The member stored under `key`, when the value is an object that has it.
    pub fn member(&self, key: &str) -> (r: Option<&JsonValue>)
        ensures
            match r {
                Some(m) => self@.member(key@) == Some(m@),
                None => self@.member(key@) is None,
            },
    {
        match self {
            JsonValue::Object(entries) => {
                proof {
                    lemma_object_view(*entries);
                }
                let owned = String::from_str(key);
                match find_key(entries, &owned) {
                    Some(i) => Some(&entries[i].1),
                    None => None,
                }
            },
            _ => None,
        }
    }

    /// The item at index `index`, when the value is an array that has it.
    pub fn item(&self, index: usize) -> (r: Option<&JsonValue>)
        ensures
            match r {
                Some(m) => self@ is Array && index < self@->Array_0.len()
                    && self@->Array_0[index as int] == m@,
                None => !(self@ is Array && index < self@->Array_0.len()),
            },
    {
        match self {
            JsonValue::Array(items) => {
                proof {
                    lemma_array_view(*items);
                }
                if index < items.len() {
                    Some(&items[index])
                } else {
                    None
                }
            },
            _ => None,
        }
    }
}

impl Clone for JsonValue {
    /// A deep copy: the copy has the same content.
    fn clone(&self) -> (r: Self)
        ensures
            r@ == self@,
        decreases self,
    {
        match self {
            JsonValue::Null => JsonValue::Null,
            JsonValue::Str(s) => JsonValue::Str(s.clone()),
            JsonValue::Boolean(b) => JsonValue::Boolean(*b),
            JsonValue::Num(n) => JsonValue::Num(*n),
            JsonValue::Array(a) => {
                let mut items: Vec<JsonValue> = Vec::new();
                let mut i: usize = 0;
                while i < a.len()
                    invariant
                        *self == JsonValue::Array(*a),
                        i <= a.len(),
                        items@.len() == i,
                        forall|j: int| 0 <= j < i ==> (#[trigger] items@[j])@ == a@[j]@,
                    decreases a.len() - i,
                {
                    assert(decreases_to!(*self => self->Array_0));
                    let item = a[i].clone();
                    items.push(item);
                    i += 1;
                }
                proof {
                    lemma_array_view(items);
                    lemma_array_view(*a);
                    assert(items_view(items@) =~= items_view(a@));
                }
                JsonValue::Array(items)
            },
            JsonValue::Object(o) => {
                let mut entries: Vec<(String, JsonValue)> = Vec::new();
                let mut i: usize = 0;
                while i < o.len()
                    invariant
                        *self == JsonValue::Object(*o),
                        i <= o.len(),
                        entries@.len() == i,
                        forall|j: int|
                            0 <= j < i ==> (#[trigger] entries@[j]).0@ == o@[j].0@
                                && entries@[j].1@ == o@[j].1@,
                    decreases o.len() - i,
                {
                    let key = o[i].0.clone();
                    assert(decreases_to!(*self => self->Object_0));
                    assert(decreases_to!(o@[i as int] => o@[i as int].1));
                    let value = o[i].1.clone();
                    entries.push((key, value));
                    i += 1;
                }
                proof {
                    lemma_object_view(entries);
                    lemma_object_view(*o);
                    assert(entries_view(entries@) =~= entries_view(o@));
                }
                JsonValue::Object(entries)
            },
        }
    }
}

} // verus!
