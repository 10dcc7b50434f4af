//! Output schemas for providers: the keys structured output uses and the
//! format-only schema.

use vstd::prelude::*;
use serde_json::Value;
use crate::data::{ExampleData, strings_equal, keys_distinct, lookup, get_entry};
use crate::exceptions::LangExtractResult;

verus! {

/// The key under which extractions are listed in JSON or YAML output.
pub const EXTRACTIONS_KEY: &'static str = "extractions";

/// The suffix of the key that holds an extraction's attributes.
pub const ATTRIBUTES_SUFFIX: &'static str = "_attributes";


/// The kinds of constraint on model output.
#[derive(Debug, Clone, Copy, PartialEq, Eq, Structural)]
pub enum ConstraintType {
    /// No constraint.
    Unconstrained,
}

/// A constraint on model output.
#[derive(Debug, Clone, Copy, PartialEq, Eq, Structural)]
pub struct Constraint {
    /// The kind of constraint.
    pub constraint_type: ConstraintType,
}

impl Default for Constraint {
    fn default() -> (c: Self)
        ensures
            c.constraint_type == ConstraintType::Unconstrained,
    {
        Constraint { constraint_type: ConstraintType::Unconstrained }
    }
}

impl Constraint {
    /// No constraint.
    pub fn none() -> (c: Self)
        ensures
            c.constraint_type == ConstraintType::Unconstrained,
    {
        Constraint::default()
    }
}

/// The JSON string value holding a text.
pub uninterp spec fn json_string_value(s: Seq<char>) -> Value;

/// The text of a JSON value that is a string, `None` for any other value.
pub uninterp spec fn json_str_of(v: Value) -> Option<Seq<char>>;

/// `serde_json::Value::String`. Stated: the value is
/// [`json_string_value`] of the text, and reading it as a string gives the
/// text back.
#[verifier::external_body]
pub(crate) fn json_string(s: String) -> (v: Value)
    ensures
        v == json_string_value(s@),
        json_str_of(v) == Some(s@),
{
    Value::String(s)
}

/// `serde_json::Value::as_str`. Stated: the result is [`json_str_of`] of
/// the value.
#[verifier::external_body]
pub(crate) fn json_as_str(v: &Value) -> (r: Option<String>)
    ensures
        match r {
            Some(s) => json_str_of(*v) == Some(s@),
            None => json_str_of(*v) is None,
        },
{
    v.as_str().map(|s| s.to_string())
}

/// A schema that fixes only the output format (`json`, `yaml`, ...).
#[derive(Debug, Clone)]
pub struct FormatModeSchema {
    format: String,
}

impl FormatModeSchema {
    /// The format.
    pub closed spec fn format_name(&self) -> Seq<char> {
        self.format@
    }

    /// A schema for the format.
    pub fn new(format_mode: &str) -> (s: Self)
        ensures
            s.format_name() == format_mode@,
    {
        FormatModeSchema { format: format_mode.to_string() }
    }

    /// The format.
    pub fn format(&self) -> (r: &str)
        ensures
            r@ == self.format_name(),
    {
        self.format.as_str()
    }

    /// Sets the format.
    pub fn set_format(&mut self, format: String)
        ensures
            final(self).format_name() == format@,
    {
        self.format = format;
    }

    /// A schema from examples: examples do not constrain the format, so it
    /// is JSON.
    pub fn from_examples(examples_data: &[ExampleData], attribute_suffix: &str) -> (r: LangExtractResult<FormatModeSchema>)
        ensures
            r matches Ok(s) && s.format_name() == "json"@,
    {
        Ok(FormatModeSchema::new("json"))
    }

    /// The provider settings of the schema: `format` set to the format.
    pub fn to_provider_config(&self) -> (r: Vec<(String, Value)>)
        ensures
            r@.len() == 1,
            r@[0].0@ == "format"@,
            r@[0].1 == json_string_value(self.format_name()),
    {
        let mut config: Vec<(String, Value)> = Vec::new();
        config.push(("format".to_string(), json_string(self.format.clone())));
        config
    }

    /// Whether the provider is sure to emit valid output: only for JSON.
    pub fn supports_strict_mode(&self) -> (b: bool)
        ensures
            b == (self.format_name() == "json"@),
    {
        strings_equal(self.format.as_str(), "json")
    }

    /// Takes the format from the provider settings when they set `format`
    /// to a string.
    pub fn sync_with_provider_kwargs(&mut self, kwargs: &Vec<(String, Value)>)
        requires
            keys_distinct(kwargs@),
        ensures
            (match lookup(kwargs@, "format"@) {
                Some(v) => match json_str_of(v) {
                    Some(f) => final(self).format_name() == f,
                    None => final(self).format_name() == old(self).format_name(),
                },
                None => final(self).format_name() == old(self).format_name(),
            }),
    {
        if let Some(format_value) = get_entry(kwargs, "format") {
            if let Some(format_str) = json_as_str(format_value) {
                self.format = format_str;
            }
        }
    }
}

} // verus!
