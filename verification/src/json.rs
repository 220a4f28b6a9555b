//! A JSON value as the library reads it, and the one outside call that
//! produces one from raw bytes.

use vstd::prelude::*;

verus! {

/// A JSON number, told apart the way the logic reads numbers: as an
/// unsigned integer, a negative integer, or neither.
#[derive(Clone, Copy, PartialEq, Eq, Debug)]
pub enum JsonNumber {
    PosInt(u64),
    NegInt(i64),
    Float,
}

#[derive(Debug)]
pub enum Json {
    Null,
    Bool(bool),
    Number(JsonNumber),
    Str(String),
    Array(Vec<Json>),
    Object(Vec<(String, Json)>),
}

pub enum JsonV {
    Null,
    Bool(bool),
    Number(JsonNumber),
    Str(Seq<char>),
    Array(Seq<JsonV>),
    Object(Seq<(Seq<char>, JsonV)>),
}

impl View for Json {
    type V = JsonV;

    open spec fn view(&self) -> JsonV
        decreases self,
    {
        match self {
            Json::Null => JsonV::Null,
            Json::Bool(b) => JsonV::Bool(*b),
            Json::Number(n) => JsonV::Number(*n),
            Json::Str(s) => JsonV::Str(s@),
            Json::Array(a) => JsonV::Array(Seq::new(a@.len(), |i: int|
                if 0 <= i < a@.len() { a@[i].view() } else { JsonV::Null })),
            Json::Object(f) => JsonV::Object(Seq::new(f@.len(), |i: int|
                if 0 <= i < f@.len() { (f@[i].0@, f@[i].1.view()) } else { (Seq::empty(), JsonV::Null) })),
        }
    }
}


/// The value stored under `key` in an object's field list: the first
/// field at or after `i` whose key is `key`.
pub open spec fn field_from(fields: Seq<(Seq<char>, JsonV)>, key: Seq<char>, i: int) -> Option<JsonV>
    decreases fields.len() - i,
{
    if i < 0 || i >= fields.len() {
        None
    } else if fields[i].0 == key {
        Some(fields[i].1)
    } else {
        field_from(fields, key, i + 1)
    }
}

/// `value.get(key)`: the field named `key` of an object, `None` for any
/// other value or a missing key.
pub open spec fn jget(value: JsonV, key: Seq<char>) -> Option<JsonV> {
    match value {
        JsonV::Object(fields) => field_from(fields, key, 0),
        _ => None,
    }
}

/// `get(key)` on an optional value (`and_then(|v| v.get(key))`).
pub open spec fn oget(value: Option<JsonV>, key: Seq<char>) -> Option<JsonV> {
    match value {
        Some(v) => jget(v, key),
        None => None,
    }
}

/// `as_str` on an optional value.
pub open spec fn ostr(value: Option<JsonV>) -> Option<Seq<char>> {
    match value {
        Some(JsonV::Str(s)) => Some(s),
        _ => None,
    }
}

/// `as_bool` on an optional value.
pub open spec fn obool(value: Option<JsonV>) -> Option<bool> {
    match value {
        Some(JsonV::Bool(b)) => Some(b),
        _ => None,
    }
}

/// `as_u64` on an optional value: only a non-negative integer.
pub open spec fn ou64(value: Option<JsonV>) -> Option<u64> {
    match value {
        Some(JsonV::Number(JsonNumber::PosInt(n))) => Some(n),
        _ => None,
    }
}

/// `as_i64` on an optional value: any integer that fits an `i64`.
pub open spec fn oi64(value: Option<JsonV>) -> Option<i64> {
    match value {
        Some(JsonV::Number(JsonNumber::PosInt(n))) => if n <= i64::MAX {
            Some(n as i64)
        } else {
            None
        },
        Some(JsonV::Number(JsonNumber::NegInt(n))) => Some(n),
        _ => None,
    }
}

/// `as_array` on an optional value.
pub open spec fn oarr(value: Option<JsonV>) -> Option<Seq<JsonV>> {
    match value {
        Some(JsonV::Array(a)) => Some(a),
        _ => None,
    }
}

/// The view of an optional borrowed value.
pub open spec fn oview(value: Option<&Json>) -> Option<JsonV> {
    match value {
        Some(v) => Some(v@),
        None => None,
    }
}

/// The view of an optional borrowed string.
pub open spec fn ostring(value: Option<&String>) -> Option<Seq<char>> {
    match value {
        Some(s) => Some(s@),
        None => None,
    }
}

/// How an object's view lines up with its fields.
pub proof fn lemma_object_view(j: Json)
    requires
        j is Object,
    ensures
        j@ is Object,
        j@->Object_0.len() == j->Object_0@.len(),
        forall|i: int| 0 <= i < j->Object_0@.len() ==> #[trigger] j@->Object_0[i] == (j->Object_0@[i].0@, j->Object_0@[i].1@),
{
    let f = j->Object_0;
    reveal_with_fuel(<Json as View>::view, 2);
    assert(j@ is Object);
    assert(j@->Object_0.len() == f@.len());
}

/// How an array's view lines up with its elements.
pub proof fn lemma_array_view(j: Json)
    requires
        j is Array,
    ensures
        j@ is Array,
        j@->Array_0.len() == j->Array_0@.len(),
        forall|i: int| 0 <= i < j->Array_0@.len() ==> #[trigger] j@->Array_0[i] == j->Array_0@[i]@,
{
    let a = j->Array_0;
    reveal_with_fuel(<Json as View>::view, 2);
    assert(j@ is Array);
    assert(j@->Array_0.len() == a@.len());
}

/// `payload.get(key).and_then(as_str)`.
pub fn get_str<'a>(p: &'a Json, key: &str) -> (r: Option<&'a String>)
    ensures
        ostring(r) == ostr(jget(p@, key@)),
{
    match p.get(key) {
        Some(v) => v.as_str(),
        None => None,
    }
}

/// `payload.get(key).and_then(as_bool)`.
pub fn get_bool(p: &Json, key: &str) -> (r: Option<bool>)
    ensures
        r == obool(jget(p@, key@)),
{
    match p.get(key) {
        Some(v) => v.as_bool(),
        None => None,
    }
}

impl Json {
    /// The field named `key`, when this is an object that has one.
    pub fn get(&self, key: &str) -> (r: Option<&Json>)
        ensures
            oview(r) == jget(self@, key@),
    {
        match self {
            Json::Object(fields) => {
                let ghost fv = self@->Object_0;
                proof { lemma_object_view(*self); }
                let mut i: usize = 0;
                while i < fields.len()
                    invariant
                        fv == self@->Object_0,
                        self@ == (JsonV::Object(fv)),
                        *self == (Json::Object(*fields)),
                        fv.len() == fields@.len(),
                        forall|k: int| 0 <= k < fields@.len() ==> #[trigger] fv[k] == (fields@[k].0@, fields@[k].1@),
                        i <= fields@.len(),
                        field_from(fv, key@, 0) == field_from(fv, key@, i as int),
                    decreases fields@.len() - i,
                {
                    assert(fv[i as int] == (fields@[i as int].0@, fields@[i as int].1@));
                    if crate::text::same_text(fields[i].0.as_str(), key) {
                        return Some(&fields[i].1);
                    }
                    i = i + 1;
                }
                None
            },
            _ => None,
        }
    }

    /// The text, when this is a string.
    pub fn as_str(&self) -> (r: Option<&String>)
        ensures
            ostring(r) == ostr(Some(self@)),
    {
        match self {
            Json::Str(s) => Some(s),
            _ => None,
        }
    }

    /// The flag, when this is a boolean.
    pub fn as_bool(&self) -> (r: Option<bool>)
        ensures
            r == obool(Some(self@)),
    {
        match self {
            Json::Bool(b) => Some(*b),
            _ => None,
        }
    }

    /// The number, when this is a non-negative integer.
    pub fn as_u64(&self) -> (r: Option<u64>)
        ensures
            r == ou64(Some(self@)),
    {
        match self {
            Json::Number(JsonNumber::PosInt(n)) => Some(*n),
            _ => None,
        }
    }

    /// The number, when this is an integer that fits an `i64`.
    pub fn as_i64(&self) -> (r: Option<i64>)
        ensures
            r == oi64(Some(self@)),
    {
        match self {
            Json::Number(JsonNumber::PosInt(n)) => if *n <= 9223372036854775807u64 {
                Some(*n as i64)
            } else {
                None
            },
            Json::Number(JsonNumber::NegInt(n)) => Some(*n),
            _ => None,
        }
    }

    /// The elements, when this is an array.
    pub fn as_array(&self) -> (r: Option<&Vec<Json>>)
        ensures
            match r {
                Some(a) => oarr(Some(self@)) == Some(a@.map_values(|e: Json| e@)),
                None => oarr(Some(self@)) is None,
            },
    {
        match self {
            Json::Array(a) => {
                proof { lemma_array_view(*self); }
                assert(self@->Array_0 =~= a@.map_values(|e: Json| e@));
                Some(a)
            },
            _ => None,
        }
    }
}


#[verifier::external_type_specification]
#[verifier::external_body]
pub struct ExJsonValue(serde_json::Value);

/// What `serde_json::from_slice::<serde_json::Value>` makes of `bytes`:
/// `None` where the bytes are not one JSON text, else the value, read as
/// a `JsonV` (objects in the iteration order of serde_json's map).
pub uninterp spec fn parsed_json(bytes: Seq<u8>) -> Option<JsonV>;

/// Moves a parsed `serde_json::Value` into the library's own `Json`,
/// variant for variant (numbers by `as_u64`, then `as_i64`). Only ever
/// called on a value `read_json` has just parsed; nothing is claimed of
/// it on its own.
#[verifier::external_body]
fn from_value(v: serde_json::Value) -> Json {
    match v {
        serde_json::Value::Null => Json::Null,
        serde_json::Value::Bool(b) => Json::Bool(b),
        serde_json::Value::Number(n) => Json::Number(match (n.as_u64(), n.as_i64()) {
            (Some(u), _) => JsonNumber::PosInt(u),
            (None, Some(i)) => JsonNumber::NegInt(i),
            (None, None) => JsonNumber::Float,
        }),
        serde_json::Value::String(s) => Json::Str(s),
        serde_json::Value::Array(a) => Json::Array(a.into_iter().map(from_value).collect()),
        serde_json::Value::Object(m) => Json::Object(m.into_iter().map(|(k, v)| (k, from_value(v))).collect()),
    }
}

/// `serde_json::from_slice::<serde_json::Value>`. Trusted: the result is
/// `None` exactly where serde_json rejects the bytes, and otherwise the
/// value serde_json parsed; both are a function of the bytes alone,
/// named `parsed_json`.
#[verifier::external_body]
fn read_json(bytes: &[u8]) -> (r: Option<Json>)
    ensures
        match r {
            Some(j) => parsed_json(bytes@) == Some(j@),
            None => parsed_json(bytes@) is None,
        },
{
    serde_json::from_slice::<serde_json::Value>(bytes).ok().map(from_value)
}

/// Parse one JSON text.
pub fn parse_json(bytes: &[u8]) -> (r: Option<Json>)
    ensures
        match r {
            Some(j) => parsed_json(bytes@) == Some(j@),
            None => parsed_json(bytes@) is None,
        },
{
    read_json(bytes)
}

} // verus!
