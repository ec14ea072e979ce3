//! A JSON document as the source readers see it.

use vstd::prelude::*;

use crate::text::str_eq;

verus! {

/// A JSON value. Numbers keep their text, since nothing here reads them.
#[derive(Debug)]
pub enum Json {
    Null,
    Bool(bool),
    Number(String),
    Str(String),
    Array(Vec<Json>),
    /// Members in the order the parser lists them (serde_json's map, by
    /// key); a key occurs at most once.
    Object(Vec<(String, Json)>),
}

#[verifier::external_type_specification]
#[verifier::external_body]
pub struct ExJsonValue(serde_json::Value);

/// The document that `serde_json` reads from `text`: the value, or the text
/// of the error that `serde_json::from_str` reports.
pub uninterp spec fn json_document(text: Seq<char>) -> Result<Json, Seq<char>>;

/// A `serde_json::Value` as a `Json`, variant for variant.
#[verifier::external_body]
fn from_value(v: serde_json::Value) -> (r: Json) {
    match v {
        serde_json::Value::Null => Json::Null,
        serde_json::Value::Bool(b) => Json::Bool(b),
        serde_json::Value::Number(n) => Json::Number(n.to_string()),
        serde_json::Value::String(s) => Json::Str(s),
        serde_json::Value::Array(a) => Json::Array(a.into_iter().map(from_value).collect()),
        serde_json::Value::Object(o) => Json::Object(o.into_iter().map(|(k, x)| (k, from_value(x))).collect()),
    }
}

/// A parse result, its error as text.
pub open spec fn parse_view(r: Result<Json, String>) -> Result<Json, Seq<char>> {
    match r {
        Ok(d) => Ok(d),
        Err(e) => Err(e@),
    }
}

/// `serde_json::from_str::<serde_json::Value>`: the result is
/// `json_document(text)`, the error as its `Display` text.
#[verifier::external_body]
pub(crate) fn parse_json(text: &str) -> (r: Result<Json, String>)
    ensures
        parse_view(r) == json_document(text@),
{
    match serde_json::from_str::<serde_json::Value>(text) {
        Ok(v) => Ok(from_value(v)),
        Err(e) => Err(e.to_string()),
    }
}

/// The value of the first member named `key`.
pub open spec fn member(fields: Seq<(String, Json)>, key: Seq<char>) -> Option<Json>
    decreases fields.len(),
{
    if fields.len() == 0 {
        None
    } else if fields[0].0@ == key {
        Some(fields[0].1)
    } else {
        member(fields.drop_first(), key)
    }
}

/// The member `key` of an object; `None` for a missing member or a value
/// that is not an object, as `serde_json::Value::get` answers.
pub open spec fn field(v: Json, key: Seq<char>) -> Option<Json> {
    match v {
        Json::Object(fields) => member(fields@, key),
        _ => None,
    }
}

/// The member `key` of an object, where there is an object.
pub open spec fn field_of(v: Option<Json>, key: Seq<char>) -> Option<Json> {
    match v {
        Some(j) => field(j, key),
        None => None,
    }
}

/// The items of an array value, as `as_array` answers.
pub open spec fn items_of(v: Option<Json>) -> Option<Seq<Json>> {
    match v {
        Some(Json::Array(a)) => Some(a@),
        _ => None,
    }
}

/// The text of a string value, as `as_str` answers.
pub open spec fn text_of(v: Option<Json>) -> Option<Seq<char>> {
    match v {
        Some(Json::Str(s)) => Some(s@),
        _ => None,
    }
}

/// `v.get(key)`: the member `key` of an object value.
pub fn get<'a>(v: &'a Json, key: &str) -> (r: Option<&'a Json>)
    ensures
        r matches Some(x) ==> field(*v, key@) == Some(*x),
        r is None ==> field(*v, key@) is None,
{
    match v {
        Json::Object(fields) => {
            let n = fields.len();
            let mut i: usize = 0;
            assert(fields@.skip(0) == fields@);
            assert(field(*v, key@) == member(fields@, key@));
            while i < n
                invariant
                    n == fields@.len(),
                    i <= n,
                    member(fields@, key@) == member(fields@.skip(i as int), key@),
                    field(*v, key@) == member(fields@, key@),
                decreases n - i,
            {
                assert(fields@.skip(i as int).drop_first() == fields@.skip(i + 1));
                assert(fields@.skip(i as int)[0] == fields@[i as int]);
                if str_eq(fields[i].0.as_str(), key) {
                    assert(member(fields@.skip(i as int), key@) == Some(fields@[i as int].1));
                    let found: &Json = &fields[i].1;
                    assert(*found == fields@[i as int].1);
                    assert(field(*v, key@) == Some(*found));
                    return Some(found);
                }
                i += 1;
            }
            None
        },
        _ => None,
    }
}

/// `v.as_array()`: the items of an array value.
pub fn as_array(v: &Json) -> (r: Option<&Vec<Json>>)
    ensures
        r matches Some(a) ==> items_of(Some(*v)) == Some(a@),
        r is None ==> items_of(Some(*v)) is None,
{
    match v {
        Json::Array(a) => Some(a),
        _ => None,
    }
}

/// `v.as_str()`: the text of a string value.
pub fn as_str(v: &Json) -> (r: Option<&str>)
    ensures
        r matches Some(s) ==> text_of(Some(*v)) == Some(s@),
        r is None ==> text_of(Some(*v)) is None,
{
    match v {
        Json::Str(s) => Some(s.as_str()),
        _ => None,
    }
}

} // verus!
