//! A JSON document as the library reads it, and lookups into it.
use vstd::prelude::*;

use serde_json::Value;

use crate::text::str_eq;

verus! {

/// A JSON value. Numbers keep the form `serde_json` gives them: a non-negative integer,
/// a negative integer, or (kept as its text) a floating-point number. A lookup finds the
/// first member with the key; objects read from text by `parse_json` have their members
/// sorted by key with no key twice, as `serde_json` (without its `preserve_order` feature)
/// keeps them.
#[derive(Debug)]
pub enum Json {
    Null,
    Bool(bool),
    UInt(u64),
    NegInt(i64),
    Float(String),
    Str(String),
    Array(Vec<Json>),
    Object(Vec<(String, Json)>),
}

/// The value of the first member of `fields` named `key`.
pub open spec fn member(fields: Seq<(String, Json)>, key: Seq<char>) -> Option<Json>
    decreases fields.len(),
{
    if fields.len() == 0 {
        None
    } else if fields[0].0@ == key {
        Some(fields[0].1)
    } else {
        member(fields.drop_first(), key)
    }
}

/// The member `key` of `j` when `j` is an object that has one, as `Value::get` finds it.
pub open spec fn json_get(j: Json, key: Seq<char>) -> Option<Json> {
    match j {
        Json::Object(fields) => member(fields@, key),
        _ => None,
    }
}

/// The elements of `j` when it is an array.
pub open spec fn json_array(j: Json) -> Option<Seq<Json>> {
    match j {
        Json::Array(items) => Some(items@),
        _ => None,
    }
}

/// The text of `j` when it is a string.
pub open spec fn json_str(j: Json) -> Option<Seq<char>> {
    match j {
        Json::Str(s) => Some(s@),
        _ => None,
    }
}

/// `json_get` lifted over an absent value.
pub open spec fn get_opt(j: Option<Json>, key: Seq<char>) -> Option<Json> {
    match j {
        Some(v) => json_get(v, key),
        None => None,
    }
}

impl Json {
    /// The member `key` of this value when it is an object that has one.
    pub fn get(&self, key: &str) -> (r: Option<&Json>)
        ensures
            r matches Some(v) ==> json_get(*self, key@) == Some(*v),
            r is None ==> json_get(*self, key@) is None,
    {
        match self {
            Json::Object(fields) => {
                let mut i: usize = 0;
                assert(fields@.skip(0) =~= fields@);
                while i < fields.len()
                    invariant
                        i <= fields@.len(),
                        json_get(*self, key@) == member(fields@, key@),
                        member(fields@, key@) == member(fields@.skip(i as int), key@),
                    decreases fields@.len() - i,
                {
                    assert(fields@.skip(i as int).drop_first() =~= fields@.skip(i + 1));
                    assert(fields@.skip(i as int)[0] == fields@[i as int]);
                    if str_eq(fields[i].0.as_str(), key) {
                        return Some(&fields[i].1);
                    }
                    i = i + 1;
                }
                None
            },
            _ => None,
        }
    }

    /// The elements of this value when it is an array.
    pub fn as_array(&self) -> (r: Option<&Vec<Json>>)
        ensures
            r matches Some(v) ==> json_array(*self) == Some(v@),
            r is None ==> json_array(*self) is None,
    {
        match self {
            Json::Array(items) => Some(items),
            _ => None,
        }
    }

    /// The text of this value when it is a string.
    pub fn as_str(&self) -> (r: Option<&String>)
        ensures
            r matches Some(s) ==> json_str(*self) == Some(s@),
            r is None ==> json_str(*self) is None,
    {
        match self {
            Json::Str(s) => Some(s),
            _ => None,
        }
    }
}

#[verifier::external_type_specification]
#[verifier::external_body]
pub struct ExJsonValue(serde_json::Value);

/// The JSON document that `serde_json::from_str::<serde_json::Value>` reads from `text`, as
/// a `Json`; `None` when it refuses the text.
pub uninterp spec fn json_document(text: Seq<char>) -> Option<Json>;

/// Converts a `serde_json::Value` into a `Json`, variant by variant.
#[verifier::external_body]
fn value_to_json(v: &Value) -> Json {
    match v {
        Value::Null => Json::Null,
        Value::Bool(b) => Json::Bool(*b),
        Value::Number(n) => match (n.as_u64(), n.as_i64()) {
            (Some(u), _) => Json::UInt(u),
            (None, Some(i)) => Json::NegInt(i),
            (None, None) => Json::Float(n.to_string()),
        },
        Value::String(t) => Json::Str(t.clone()),
        Value::Array(a) => Json::Array(a.iter().map(value_to_json).collect()),
        Value::Object(m) => Json::Object(m.iter().map(|(k, x)| (k.clone(), value_to_json(x))).collect()),
    }
}

/// Calls `serde_json::from_str::<serde_json::Value>` on `text` and converts the document;
/// the result is named by `json_document`.
#[verifier::external_body]
pub(crate) fn parse_json(text: &str) -> (r: Option<Json>)
    ensures
        r == json_document(text@),
{
    serde_json::from_str::<serde_json::Value>(text).ok().map(|v| value_to_json(&v))
}

} // verus!
