//! JSON values, as `serde_json` reads them.

use vstd::prelude::*;

verus! {

/// What a JSON value holds.
pub enum Json {
    Null,
    Bool(bool),
    /// A number, by how it is written out, and as a whole number where it is one that 64 bits
    /// hold.
    Number { text: Seq<char>, integer: Option<i64> },
    Text(Seq<char>),
    List(Seq<Json>),
    Object(Map<Seq<char>, Json>),
}

impl Json {
    /// The member of an object.
    pub open spec fn get(self, key: Seq<char>) -> Option<Json> {
        match self {
            Json::Object(members) => if members.contains_key(key) {
                Some(members[key])
            } else {
                None
            },
            _ => None,
        }
    }

    pub open spec fn text(self) -> Option<Seq<char>> {
        match self {
            Json::Text(s) => Some(s),
            _ => None,
        }
    }

    pub open spec fn list(self) -> Option<Seq<Json>> {
        match self {
            Json::List(items) => Some(items),
            _ => None,
        }
    }

    pub open spec fn integer(self) -> Option<i64> {
        match self {
            Json::Number { integer, .. } => integer,
            _ => None,
        }
    }

    pub open spec fn boolean(self) -> Option<bool> {
        match self {
            Json::Bool(b) => Some(b),
            _ => None,
        }
    }

    pub open spec fn number(self) -> Option<Seq<char>> {
        match self {
            Json::Number { text, .. } => Some(text),
            _ => None,
        }
    }
}

/// The member of what may be an object.
pub open spec fn member_of(j: Option<Json>, key: Seq<char>) -> Option<Json> {
    match j {
        Some(v) => v.get(key),
        None => None,
    }
}

/// A JSON value of `serde_json`.
#[verifier::external_type_specification]
#[verifier::external_body]
pub struct ExValue(serde_json::Value);

/// What a value of `serde_json` holds.
pub uninterp spec fn json_of(v: serde_json::Value) -> Json;

/// What `serde_json::from_str` reads a text as: a value, or the words of its complaint.
pub uninterp spec fn json_parse(s: Seq<char>) -> Result<Json, Seq<char>>;

/// What several values hold.
pub open spec fn all_json(v: Seq<serde_json::Value>) -> Seq<Json> {
    v.map_values(|x: serde_json::Value| json_of(x))
}

/// `serde_json::from_str`, reading a text as any JSON value. Its result is a function of the text
/// alone and goes by the name [`json_parse`]; an error is handed on as the words it prints.
#[verifier::external_body]
pub(crate) fn parse(s: &str) -> (r: Result<serde_json::Value, String>)
    ensures
        r is Ok <==> json_parse(s@) is Ok,
        r matches Ok(v) ==> json_of(v) == json_parse(s@)->Ok_0,
        r matches Err(e) ==> e@ == json_parse(s@)->Err_0,
{
    serde_json::from_str::<serde_json::Value>(s).map_err(|e| e.to_string())
}

/// `Value::get` with a text: the member of that name where the value is an object that has one.
#[verifier::external_body]
pub(crate) fn member<'a>(v: &'a serde_json::Value, key: &str) -> (r: Option<&'a serde_json::Value>)
    ensures
        r is Some <==> json_of(*v).get(key@) is Some,
        r matches Some(m) ==> json_of(*m) == json_of(*v).get(key@)->0,
{
    v.get(key)
}

/// `Value::as_array`: the items of a list, in order.
#[verifier::external_body]
pub(crate) fn elements(v: &serde_json::Value) -> (r: Option<&Vec<serde_json::Value>>)
    ensures
        r is Some <==> json_of(*v).list() is Some,
        r matches Some(items) ==> all_json(items@) == json_of(*v).list()->0,
{
    v.as_array()
}

/// `Value::as_str`: the characters of a text.
#[verifier::external_body]
pub(crate) fn string(v: &serde_json::Value) -> (r: Option<&str>)
    ensures
        r is Some <==> json_of(*v).text() is Some,
        r matches Some(s) ==> s@ == json_of(*v).text()->0,
{
    v.as_str()
}

/// `Value::as_i64`: a whole number that 64 bits hold.
#[verifier::external_body]
pub(crate) fn whole(v: &serde_json::Value) -> (r: Option<i64>)
    ensures
        r == json_of(*v).integer(),
{
    v.as_i64()
}

/// `Value::as_bool`: a truth value.
#[verifier::external_body]
pub(crate) fn boolean(v: &serde_json::Value) -> (r: Option<bool>)
    ensures
        r == json_of(*v).boolean(),
{
    v.as_bool()
}

/// `Value::as_number` and the way a `Number` prints itself.
#[verifier::external_body]
pub(crate) fn number(v: &serde_json::Value) -> (r: Option<String>)
    ensures
        r is Some <==> json_of(*v).number() is Some,
        r matches Some(s) ==> s@ == json_of(*v).number()->0,
{
    v.as_number().map(|n| n.to_string())
}

/// `Value::as_object` and `Map::len`: how many members an object has.
#[verifier::external_body]
fn members(v: &serde_json::Value) -> (r: Option<usize>)
    ensures
        r is Some <==> json_of(*v) is Object,
        r matches Some(n) ==> json_of(*v)->Object_0.dom().finite() && json_of(*v)->Object_0.len() == n,
{
    v.as_object().map(|m| m.len())
}

/// `Value::is_null`.
#[verifier::external_body]
fn is_null(v: &serde_json::Value) -> (r: bool)
    ensures
        r == (json_of(*v) is Null),
{
    v.is_null()
}

/// A value that names one of several plain choices: its name as a text, or an object with that
/// one member and nothing in it.
pub open spec fn names(j: Json, name: Seq<char>) -> bool {
    match j {
        Json::Text(s) => s == name,
        Json::Object(m) => m.dom().finite() && m.len() == 1 && m.contains_key(name) && m[name] is Null,
        _ => false,
    }
}

pub(crate) fn is_named(v: &serde_json::Value, name: &str) -> (r: bool)
    ensures
        r == names(json_of(*v), name@),
{
    if let Some(s) = string(v) {
        return *s == *name;
    }
    match members(v) {
        Some(n) => {
            if n != 1 {
                return false;
            }
            match member(v, name) {
                Some(m) => is_null(m),
                None => false,
            }
        },
        None => false,
    }
}

/// The member of what may be an object.
pub(crate) fn member_in<'a>(v: Option<&'a serde_json::Value>, key: &str) -> (r: Option<
    &'a serde_json::Value,
>)
    ensures
        r is Some <==> member_of(held(v), key@) is Some,
        r matches Some(m) ==> json_of(*m) == member_of(held(v), key@)->0,
{
    match v {
        Some(o) => member(o, key),
        None => None,
    }
}

/// What a value that may be missing holds.
pub open spec fn held(v: Option<&serde_json::Value>) -> Option<Json> {
    match v {
        Some(x) => Some(json_of(*x)),
        None => None,
    }
}

} // verus!
