//! A plain model of JSON values, the one outside call that parses a line of
//! JSON text into it, and the lookups that the log parser makes on it.
use vstd::prelude::*;
use crate::text::str_eq;

verus! {

/// `serde_json::Value`, known to Verus only as an opaque type.
#[verifier::external_type_specification]
#[verifier::external_body]
pub struct ExSerdeJsonValue(serde_json::Value);

/// A JSON value. Numbers keep the text that `serde_json` prints for them;
/// an object keeps its members in the order `serde_json` stores them, each
/// key once.
pub enum JsonValue {
    Null,
    Bool(bool),
    Number(String),
    Str(String),
    Array(Vec<JsonValue>),
    Object(Vec<(String, JsonValue)>),
}

/// What `serde_json::from_str::<serde_json::Value>` makes of a line:
/// `None` where it reports an error.
pub uninterp spec fn json_parse(line: Seq<char>) -> Option<JsonValue>;

/// Rebuilds a `serde_json::Value` as a `JsonValue`, variant by variant,
/// printing numbers with `serde_json::Number`'s `Display`. Nothing is
/// stated of it: Verus sees no part of a `serde_json::Value`; `parse_json`
/// names what the two together give.
#[verifier::external_body]
fn json_of_value(v: serde_json::Value) -> JsonValue {
    match v {
        serde_json::Value::Null => JsonValue::Null,
        serde_json::Value::Bool(b) => JsonValue::Bool(b),
        serde_json::Value::Number(n) => JsonValue::Number(n.to_string()),
        serde_json::Value::String(s) => JsonValue::Str(s),
        serde_json::Value::Array(a) => JsonValue::Array(a.into_iter().map(json_of_value).collect()),
        serde_json::Value::Object(m) => JsonValue::Object(m.into_iter().map(|(k, x)| (k, json_of_value(x))).collect()),
    }
}

/// Parses one line of JSON text with `serde_json::from_str` into a
/// `serde_json::Value` and rebuilds it as a `JsonValue`. The contract claims
/// only that the result depends on the line alone (it is named
/// `json_parse`); what `serde_json` accepts and builds is not stated.
#[verifier::external_body]
pub(crate) fn parse_json(line: &str) -> (r: Option<JsonValue>)
    ensures
        r == json_parse(line@),
{
    match serde_json::from_str::<serde_json::Value>(line) {
        Ok(v) => Some(json_of_value(v)),
        Err(_) => None,
    }
}

/// The value of the first member named `key`.
pub open spec fn member(fields: Seq<(String, JsonValue)>, key: Seq<char>) -> Option<JsonValue>
    decreases fields.len(),
{
    if fields.len() == 0 {
        None
    } else if fields[0].0@ == key {
        Some(fields[0].1)
    } else {
        member(fields.drop_first(), key)
    }
}

/// `Value::get` chained through `Option::and_then`: the member `key` of an
/// object, `None` for anything else.
pub open spec fn get(v: Option<JsonValue>, key: Seq<char>) -> Option<JsonValue> {
    match v {
        Some(JsonValue::Object(fields)) => member(fields@, key),
        _ => None,
    }
}

/// `Value::as_str`: the text of a JSON string.
pub open spec fn as_str(v: Option<JsonValue>) -> Option<Seq<char>> {
    match v {
        Some(JsonValue::Str(s)) => Some(s@),
        _ => None,
    }
}

/// `Value::as_array`: the items of a JSON array.
pub open spec fn as_array(v: Option<JsonValue>) -> Option<Seq<JsonValue>> {
    match v {
        Some(JsonValue::Array(items)) => Some(items@),
        _ => None,
    }
}

pub open spec fn deref_opt(v: Option<&JsonValue>) -> Option<JsonValue> {
    match v {
        Some(x) => Some(*x),
        None => None,
    }
}

/// The member `key` of `v` when `v` is an object.
pub fn get_member<'a>(v: Option<&'a JsonValue>, key: &str) -> (r: Option<&'a JsonValue>)
    ensures
        deref_opt(r) == get(deref_opt(v), key@),
{
    match v {
        Some(JsonValue::Object(fields)) => {
            let mut i: usize = 0;
            assert(fields@.skip(0) == fields@);
            while i < fields.len()
                invariant
                    i <= fields@.len(),
                    get(deref_opt(v), key@) == member(fields@.skip(i as int), key@),
                decreases fields.len() - i,
            {
                assert(fields@.skip(i as int).drop_first() == fields@.skip(i + 1));
                assert(fields@.skip(i as int)[0] == fields@[i as int]);
                if str_eq(fields[i].0.as_str(), key) {
                    return Some(&fields[i].1);
                }
                i = i + 1;
            }
            None
        },
        _ => None,
    }
}

/// The text of `v` when it is a JSON string.
pub fn get_str<'a>(v: Option<&'a JsonValue>) -> (r: Option<&'a String>)
    ensures
        match r {
            Some(s) => as_str(deref_opt(v)) == Some(s@),
            None => as_str(deref_opt(v)) is None,
        },
{
    match v {
        Some(JsonValue::Str(s)) => Some(s),
        _ => None,
    }
}

/// The items of `v` when it is a JSON array.
pub fn get_array<'a>(v: Option<&'a JsonValue>) -> (r: Option<&'a Vec<JsonValue>>)
    ensures
        match r {
            Some(items) => as_array(deref_opt(v)) == Some(items@),
            None => as_array(deref_opt(v)) is None,
        },
{
    match v {
        Some(JsonValue::Array(items)) => Some(items),
        _ => None,
    }
}

} // verus!
