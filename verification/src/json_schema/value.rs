//! JSON values.

use vstd::prelude::*;

use crate::json_schema::double::Double;
use crate::text;

verus! {

/// A JSON number: the readings that it has, and its text.
#[derive(Debug)]
pub struct JsonNumber {
    /// As an unsigned integer, where it is one.
    pub unsigned: Option<u64>,
    /// As a signed integer, where it is one.
    pub signed: Option<i64>,
    /// As a double, where it has that reading.
    pub double: Option<Double>,
    pub text: String,
}

/// A JSON value. The names of an object's members are distinct.
#[derive(Debug)]
pub enum Json {
    Null,
    Bool(bool),
    Number(JsonNumber),
    String(String),
    Array(Vec<Json>),
    Object(Vec<(String, Json)>),
}

/// The members of an object.
pub type Members = Seq<(String, Json)>;

/// Index of the first member named `key`, from `i` on.
pub open spec fn find_member(o: Members, key: Seq<char>, i: int) -> Option<int>
    decreases o.len() - i,
{
    if i < 0 || i >= o.len() {
        None
    } else if o[i].0@ == key {
        Some(i)
    } else {
        find_member(o, key, i + 1)
    }
}

/// The member named `key`.
pub open spec fn member(o: Members, key: Seq<char>) -> Option<Json> {
    match find_member(o, key, 0) {
        Some(i) => Some(o[i].1),
        None => None,
    }
}

pub proof fn lemma_find_member(o: Members, key: Seq<char>, i: int)
    requires
        0 <= i,
    ensures
        find_member(o, key, i) matches Some(k) ==> i <= k < o.len() && o[k].0@ == key,
    decreases o.len() - i,
{
    if i < o.len() && o[i].0@ != key {
        lemma_find_member(o, key, i + 1);
    }
}

/// The value of the member named `key`.
pub fn get<'a>(o: &'a Vec<(String, Json)>, key: &str) -> (r: Option<&'a Json>)
    ensures
        member(o@, key@) is None ==> r is None,
        member(o@, key@) matches Some(v) ==> r is Some && *r->0 == v,
{
    let mut i: usize = 0;
    while i < o.len()
        invariant
            i <= o.len(),
            find_member(o@, key@, 0) == find_member(o@, key@, i as int),
        decreases o.len() - i,
    {
        if text::same_str(o[i].0.as_str(), key) {
            return Some(&o[i].1);
        }
        i += 1;
    }
    None
}

/// Name of the type of a value.
pub open spec fn kind_name(v: Json) -> Seq<char> {
    match v {
        Json::Null => "null"@,
        Json::Bool(_) => "boolean"@,
        Json::Number(_) => "number"@,
        Json::String(_) => "string"@,
        Json::Array(_) => "array"@,
        Json::Object(_) => "object"@,
    }
}

/// Name of the type of a value.
pub fn kind_of(v: &Json) -> (r: &'static str)
    ensures
        r@ == kind_name(*v),
{
    match v {
        Json::Null => "null",
        Json::Bool(_) => "boolean",
        Json::Number(_) => "number",
        Json::String(_) => "string",
        Json::Array(_) => "array",
        Json::Object(_) => "object",
    }
}

#[verifier::external_type_specification]
#[verifier::external_body]
pub struct ExJsonValue(serde_json::Value);

/// The compact JSON text of a value.
pub uninterp spec fn compact_text(v: Json) -> Seq<char>;

/// The value that a JSON text denotes; `None` where it is not one JSON value.
pub uninterp spec fn parsed(text: Seq<char>) -> Option<Json>;

/// Builds the `serde_json::Value` that a value stands for, variant by variant. A number goes
/// through its text.
#[verifier::external_body]
fn to_outside(v: &Json) -> serde_json::Value {
    match v {
        Json::Null => serde_json::Value::Null,
        Json::Bool(b) => serde_json::Value::Bool(*b),
        Json::Number(n) => serde_json::from_str(&n.text).unwrap_or_default(),
        Json::String(s) => serde_json::Value::String(s.clone()),
        Json::Array(a) => serde_json::Value::Array(a.iter().map(to_outside).collect()),
        Json::Object(o) => serde_json::Value::Object(
            o.iter().map(|m| (m.0.clone(), to_outside(&m.1))).collect(),
        ),
    }
}

/// Takes a `serde_json::Value` over, variant by variant. Members come in the order in which
/// `serde_json::Map` holds them.
#[verifier::external_body]
fn from_outside(v: &serde_json::Value) -> Json {
    match v {
        serde_json::Value::Null => Json::Null,
        serde_json::Value::Bool(b) => Json::Bool(*b),
        serde_json::Value::Number(n) => Json::Number(number_from_outside(n)),
        serde_json::Value::String(s) => Json::String(s.clone()),
        serde_json::Value::Array(a) => Json::Array(a.iter().map(from_outside).collect()),
        serde_json::Value::Object(o) => Json::Object(
            o.iter().map(|(k, m)| (k.clone(), from_outside(m))).collect(),
        ),
    }
}

#[verifier::external_type_specification]
#[verifier::external_body]
pub struct ExJsonNumber(serde_json::Number);

/// The readings of a `serde_json::Number`.
#[verifier::external_body]
fn number_from_outside(n: &serde_json::Number) -> JsonNumber {
    JsonNumber {
        unsigned: n.as_u64(),
        signed: n.as_i64(),
        double: n.as_f64().map(|value| Double { bits: value.to_bits() }),
        text: n.to_string(),
    }
}

/// The compact text of a value, by `serde_json::Value`'s `to_string`.
///
/// Trusted: the text depends on the value alone.
#[verifier::external_body]
pub(crate) fn json_text(v: &Json) -> (r: String)
    ensures
        r@ == compact_text(*v),
{
    to_outside(v).to_string()
}

/// Parses a JSON text with `serde_json::from_str`.
///
/// Trusted: the value depends on the text alone.
#[verifier::external_body]
pub(crate) fn read_json(text: &str) -> (r: Option<Json>)
    ensures
        r == parsed(text@),
{
    let outside: Option<serde_json::Value> = serde_json::from_str(text).ok();
    outside.map(|v| from_outside(&v))
}

/// Parses a JSON text; `None` where it is not one JSON value.
pub fn parse_json(text: &str) -> (r: Option<Json>)
    ensures
        r == parsed(text@),
{
    read_json(text)
}

} // verus!
