//! What the library decides about a model's outputs: the error for a model
//! that gave none, and reading an output as JSON or YAML.

use vstd::prelude::*;
use serde_json::Value;
use crate::text::push_str;
use crate::exceptions::{LangExtractError, LangExtractResult};
use crate::layers::{parsed_json, parse_json};
use crate::json::{json_read, json_from_str, yaml_read, yaml_from_str, yaml_json_text, yaml_to_json_string};

verus! {

/// A model produced no scored output.
#[derive(Debug, Clone, PartialEq, Eq)]
pub struct InferenceOutputError {
    /// What went wrong.
    pub message: String,
}

impl InferenceOutputError {
    /// The error with the given message.
    pub fn new(message: String) -> (e: Self)
        ensures
            e.message == message,
    {
        InferenceOutputError { message }
    }

    /// The rendered message of the error.
    pub open spec fn spec_message(&self) -> Seq<char> {
        "No scored outputs available from the language model: "@ + self.message@
    }

    /// The rendered message of the error; see [`InferenceOutputError::spec_message`].
    pub fn to_string(&self) -> (r: String)
        ensures
            r@ == self.spec_message(),
    {
        let mut r = String::new();
        push_str(&mut r, "No scored outputs available from the language model: ");
        push_str(&mut r, self.message.as_str());
        r
    }
}

/// Reads a model's output as JSON, else as YAML carried over to JSON
/// through its JSON text. Failing to carry it over is a serialization error
/// (`JSON error: ` and the message); failing to read it as YAML is a
/// parsing error (`Failed to parse output as JSON or YAML: ` and the YAML
/// error).
pub fn parse_output(output: &str) -> (r: LangExtractResult<Value>)
    ensures
        match parsed_json(output@) {
            Some(v) => r == Ok::<Value, LangExtractError>(v),
            None => match yaml_read(output@) {
                Ok(y) => match yaml_json_text(y) {
                    Ok(t) => match json_read(t) {
                        Ok(v) => r == Ok::<Value, LangExtractError>(v),
                        Err(m) => r matches Err(LangExtractError::SerializationError(x)) && x@ == "JSON error: "@ + m,
                    },
                    Err(m) => r matches Err(LangExtractError::SerializationError(x)) && x@ == "JSON error: "@ + m,
                },
                Err(m) => r matches Err(LangExtractError::ParsingError(x)) && x@ == "Failed to parse output as JSON or YAML: "@
                    + m,
            },
        },
{
    if let Some(v) = parse_json(output) {
        return Ok(v);
    }
    match yaml_from_str(output) {
        Ok(y) => {
            let carried = match yaml_to_json_string(&y) {
                Ok(t) => json_from_str(t.as_str()),
                Err(m) => Err(m),
            };
            match carried {
                Ok(v) => Ok(v),
                Err(m) => {
                    let mut x = String::new();
                    push_str(&mut x, "JSON error: ");
                    push_str(&mut x, m.as_str());
                    Err(LangExtractError::SerializationError(x))
                },
            }
        },
        Err(m) => {
            let mut x = String::new();
            push_str(&mut x, "Failed to parse output as JSON or YAML: ");
            push_str(&mut x, m.as_str());
            Err(LangExtractError::ParsingError(x))
        },
    }
}

} // verus!
