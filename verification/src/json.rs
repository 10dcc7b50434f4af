//! The JSON value type of `serde_json`, carried through the library.

use vstd::prelude::*;
use serde_json::Value;

verus! {

/// `serde_json::Value`, an opaque JSON value.
#[verifier::external_type_specification]
#[verifier::external_body]
pub struct ExJsonValue(serde_json::Value);

/// What reading a text as JSON gives: the value, or the error's message.
pub uninterp spec fn json_read(text: Seq<char>) -> Result<Value, Seq<char>>;

/// `serde_json::from_str::<serde_json::Value>`, the error rendered by
/// `to_string`. Stated: the outcome is [`json_read`] of the text.
#[verifier::external_body]
pub(crate) fn json_from_str(text: &str) -> (r: Result<Value, String>)
    ensures
        json_read(text@) == match r {
            Ok(v) => Ok::<Value, Seq<char>>(v),
            Err(m) => Err::<Value, Seq<char>>(m@),
        },
{
    serde_json::from_str::<Value>(text).map_err(|e| e.to_string())
}

/// `serde_yaml::Value`, an opaque YAML value.
#[verifier::external_type_specification]
#[verifier::external_body]
pub struct ExYamlValue(serde_yaml::Value);

/// What reading a text as YAML gives: the value, or the error's message.
pub uninterp spec fn yaml_read(text: Seq<char>) -> Result<serde_yaml::Value, Seq<char>>;

/// `serde_yaml::from_str::<serde_yaml::Value>`, the error rendered by
/// `to_string`. Stated: the outcome is [`yaml_read`] of the text.
#[verifier::external_body]
pub(crate) fn yaml_from_str(text: &str) -> (r: Result<serde_yaml::Value, String>)
    ensures
        yaml_read(text@) == match r {
            Ok(v) => Ok::<serde_yaml::Value, Seq<char>>(v),
            Err(m) => Err::<serde_yaml::Value, Seq<char>>(m@),
        },
{
    serde_yaml::from_str::<serde_yaml::Value>(text).map_err(|e| e.to_string())
}

/// The JSON text of a YAML value, or the error's message.
pub uninterp spec fn yaml_json_text(v: serde_yaml::Value) -> Result<Seq<char>, Seq<char>>;

/// `serde_json::to_string` on a YAML value, the error rendered by
/// `to_string`. Stated: the outcome is [`yaml_json_text`] of the value.
#[verifier::external_body]
pub(crate) fn yaml_to_json_string(v: &serde_yaml::Value) -> (r: Result<String, String>)
    ensures
        yaml_json_text(*v) == match r {
            Ok(s) => Ok::<Seq<char>, Seq<char>>(s@),
            Err(m) => Err::<Seq<char>, Seq<char>>(m@),
        },
{
    serde_json::to_string(v).map_err(|e| e.to_string())
}

/// `Clone::clone` on a JSON value, which `serde_json` derives: the copy is
/// the same value.
pub assume_specification[ <serde_json::Value as core::clone::Clone>::clone ](v: &Value) -> (r: Value)
    ensures
        r == *v,
;

/// The JSON value of an optional number: `null` or the number.
pub uninterp spec fn json_number_value(n: Option<u64>) -> Value;

/// `serde_json::Value::from` on an optional `u64`. Stated: the value is
/// [`json_number_value`] of the argument.
#[verifier::external_body]
pub(crate) fn json_number(n: Option<u64>) -> (v: Value)
    ensures
        v == json_number_value(n),
{
    Value::from(n)
}

/// The JSON value of an optional text: `null` or the string.
pub uninterp spec fn json_opt_string_value(s: Option<Seq<char>>) -> Value;

/// `serde_json::Value::from` on an optional `String`. Stated: the value is
/// [`json_opt_string_value`] of the argument's text.
#[verifier::external_body]
pub(crate) fn json_opt_string(s: Option<String>) -> (v: Value)
    ensures
        v == json_opt_string_value(match s {
            Some(x) => Some(x@),
            None => None,
        }),
{
    Value::from(s)
}

/// The JSON boolean of a `bool`.
pub uninterp spec fn json_bool_value(b: bool) -> Value;

/// `serde_json::Value::Bool`. Stated: the value is [`json_bool_value`] of
/// the argument.
#[verifier::external_body]
pub(crate) fn json_bool(b: bool) -> (v: Value)
    ensures
        v == json_bool_value(b),
{
    Value::Bool(b)
}

/// The JSON array of the values, in order.
pub uninterp spec fn json_array_value(items: Seq<Value>) -> Value;

/// `serde_json::Value::Array`. Stated: the value is [`json_array_value`]
/// of the items.
#[verifier::external_body]
pub(crate) fn json_array(items: Vec<Value>) -> (v: Value)
    ensures
        v == json_array_value(items@),
{
    Value::Array(items)
}

/// The texts and values of a list of JSON object entries.
pub open spec fn entries_view(entries: Seq<(String, Value)>) -> Seq<(Seq<char>, Value)> {
    entries.map_values(|p: (String, Value)| (p.0@, p.1))
}

/// The JSON object holding the entries, inserted in order (a later entry
/// replaces an earlier one with the same key).
pub uninterp spec fn json_object_value(entries: Seq<(Seq<char>, Value)>) -> Value;

/// `serde_json::Value::Object` of a map collected from the entries.
/// Stated: the value is [`json_object_value`] of the entries.
#[verifier::external_body]
pub(crate) fn json_object(entries: Vec<(String, Value)>) -> (v: Value)
    ensures
        v == json_object_value(entries_view(entries@)),
{
    Value::Object(entries.into_iter().collect())
}

} // verus!
