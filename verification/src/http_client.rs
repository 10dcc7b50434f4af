//! What the HTTP side of the providers decides: request settings, when to
//! retry and how long to wait, request bodies, and reading the text out of
//! a provider's JSON answer.

use vstd::prelude::*;
use serde_json::Value;
use crate::text::{push_str, push_decimal, decimal};
use crate::data::{FormatType, strings_equal};
use crate::exceptions::{LangExtractError, LangExtractResult};
use crate::schema::{json_string, json_string_value, json_str_of, json_as_str};
use crate::json::{json_bool, json_bool_value, json_object, json_object_value, entries_view};
use crate::layers::{object_entries, json_object_entries, array_items, json_array_items, json_walk_depth};
use crate::resolver::entry_value;

verus! {

/// Settings of HTTP requests.
#[derive(Debug, Clone)]
pub struct HttpConfig {
    /// Request timeout, in seconds.
    pub timeout_seconds: u64,
    /// How many times a failed request is tried again.
    pub max_retries: usize,
    /// The wait before the first retry, in seconds.
    pub base_delay_seconds: u64,
    /// Whether the wait grows with each attempt.
    pub exponential_backoff: bool,
    /// Headers sent with every request, as name and value pairs.
    pub headers: Vec<(String, String)>,
}

impl Default for HttpConfig {
    fn default() -> (c: Self)
        ensures
            c.timeout_seconds == 120,
            c.max_retries == 3,
            c.base_delay_seconds == 30,
            c.exponential_backoff,
            c.headers@.len() == 0,
    {
        HttpConfig {
            timeout_seconds: 120,
            max_retries: 3,
            base_delay_seconds: 30,
            exponential_backoff: true,
            headers: Vec::new(),
        }
    }
}

// ---------------------------------------------------------------------------
// Retries.

/// What to do after attempt `attempt` (from 0) of an operation failed.
#[derive(Debug, Clone, PartialEq, Eq)]
pub enum RetryStep {
    /// Wait this many seconds, then try again.
    Wait(u64),
    /// Stop, failing with this error.
    GiveUp(LangExtractError),
}

/// The wait before the next try after failed attempt `attempt`: the base
/// delay times the attempt's number from 1 with exponential backoff, else
/// the base delay.
pub open spec fn retry_delay(base_delay_seconds: u64, exponential: bool, attempt: usize) -> int {
    if exponential { base_delay_seconds * (attempt + 1) } else { base_delay_seconds as int }
}

/// The message of the error when every attempt failed.
pub open spec fn exhausted_message(operation_name: Seq<char>, attempts: nat, last_error: Seq<char>) -> Seq<char> {
    operation_name + " failed after "@ + decimal(attempts) + " attempts. Last error: "@ + last_error
}

/// What follows failed attempt `attempt` of an operation allowed
/// `max_retries` retries: past the last attempt, an inference error naming
/// the operation, the number of attempts and the last error; else a wait
/// of [`retry_delay`] seconds.
pub fn retry_step(
    attempt: usize,
    max_retries: usize,
    base_delay_seconds: u64,
    exponential_backoff: bool,
    operation_name: &str,
    error: &LangExtractError,
) -> (r: RetryStep)
    requires
        attempt <= max_retries < usize::MAX,
        retry_delay(base_delay_seconds, exponential_backoff, attempt) <= u64::MAX,
        (attempt + 1) <= u32::MAX,
    ensures
        attempt == max_retries ==> (r matches RetryStep::GiveUp(LangExtractError::InferenceError { message: m, provider: p })
            && p is None && m@ == exhausted_message(operation_name@, (max_retries + 1) as nat, error.spec_message())),
        attempt < max_retries ==> r == RetryStep::Wait(retry_delay(base_delay_seconds, exponential_backoff, attempt) as u64),
{
    if attempt == max_retries {
        let mut m = String::new();
        push_str(&mut m, operation_name);
        push_str(&mut m, " failed after ");
        push_decimal(&mut m, max_retries + 1);
        push_str(&mut m, " attempts. Last error: ");
        let e = error.to_string();
        push_str(&mut m, e.as_str());
        return RetryStep::GiveUp(LangExtractError::InferenceError { message: m, provider: None });
    }
    let delay = if exponential_backoff {
        base_delay_seconds * ((attempt + 1) as u64)
    } else {
        base_delay_seconds
    };
    RetryStep::Wait(delay)
}

// ---------------------------------------------------------------------------
// Request bodies.

/// Builders of request bodies.
pub struct RequestBuilder;

/// A chat message of the given role.
pub open spec fn chat_message(role: Seq<char>, content: Seq<char>) -> Value {
    json_object_value(seq![("role"@, json_string_value(role)), ("content"@, json_string_value(content))])
}

fn message(role: &str, content: &str) -> (v: Value)
    ensures
        v == chat_message(role@, content@),
{
    let mut obj: Vec<(String, Value)> = Vec::new();
    obj.push(("role".to_string(), json_string(role.to_string())));
    obj.push(("content".to_string(), json_string(content.to_string())));
    proof {
        assert(entries_view(obj@) =~= seq![("role"@, json_string_value(role@)), ("content"@, json_string_value(content@))]);
    }
    json_object(obj)
}

impl RequestBuilder {
    /// A system message for an OpenAI chat request.
    pub fn openai_system_message(content: &str) -> (v: Value)
        ensures
            v == chat_message("system"@, content@),
    {
        message("system", content)
    }

    /// A user message for an OpenAI chat request.
    pub fn openai_user_message(content: &str) -> (v: Value)
        ensures
            v == chat_message("user"@, content@),
    {
        message("user", content)
    }
}

/// The value of parameter `key`, when given.
pub open spec fn param(kwargs: Seq<(String, Value)>, key: Seq<char>) -> Option<Value> {
    crate::data::lookup(kwargs, key)
}

/// The options of an Ollama request: the temperature and the token limit
/// (as `num_predict`), when given.
pub open spec fn ollama_options(kwargs: Seq<(String, Value)>) -> Seq<(Seq<char>, Value)> {
    (match param(kwargs, "temperature"@) {
        Some(t) => seq![("temperature"@, t)],
        None => seq![],
    }) + match param(kwargs, "max_tokens"@) {
        Some(m) => seq![("num_predict"@, m)],
        None => seq![],
    }
}

/// The body of an Ollama generate request: model, prompt, no streaming,
/// JSON format when JSON is asked for, and the options when there are any.
pub open spec fn ollama_body(model: Seq<char>, prompt: Seq<char>, format_type: FormatType, kwargs: Seq<(String, Value)>) -> Value {
    json_object_value(
        seq![
            ("model"@, json_string_value(model)),
            ("prompt"@, json_string_value(prompt)),
            ("stream"@, json_bool_value(false)),
        ] + (if format_type == FormatType::Json { seq![("format"@, json_string_value("json"@))] } else { seq![] })
            + if ollama_options(kwargs).len() > 0 {
            seq![("options"@, json_object_value(ollama_options(kwargs)))]
        } else {
            seq![]
        },
    )
}

/// The body of an Ollama generate request; see [`ollama_body`].
pub fn ollama_request_body(model: &str, prompt: &str, format_type: FormatType, kwargs: &Vec<(String, Value)>) -> (v: Value)
    ensures
        v == ollama_body(model@, prompt@, format_type, kwargs@),
{
    let mut body: Vec<(String, Value)> = Vec::new();
    body.push(("model".to_string(), json_string(model.to_string())));
    body.push(("prompt".to_string(), json_string(prompt.to_string())));
    body.push(("stream".to_string(), json_bool(false)));
    let ghost b0 = entries_view(body@);
    if format_type == FormatType::Json {
        body.push(("format".to_string(), json_string("json".to_string())));
    }
    let ghost b1 = entries_view(body@);
    let mut options: Vec<(String, Value)> = Vec::new();
    match crate::data::get_entry(kwargs, "temperature") {
        Some(t) => options.push(("temperature".to_string(), t.clone())),
        None => {},
    }
    let ghost o0 = entries_view(options@);
    match crate::data::get_entry(kwargs, "max_tokens") {
        Some(m) => options.push(("num_predict".to_string(), m.clone())),
        None => {},
    }
    proof {
        assert(o0 =~= match param(kwargs@, "temperature"@) {
            Some(t) => seq![("temperature"@, t)],
            None => seq![],
        });
        assert(entries_view(options@) =~= ollama_options(kwargs@));
    }
    if options.len() > 0 {
        body.push(("options".to_string(), json_object(options)));
    }
    proof {
        assert(b0 =~= seq![
            ("model"@, json_string_value(model@)),
            ("prompt"@, json_string_value(prompt@)),
            ("stream"@, json_bool_value(false)),
        ]);
        assert(b1 =~= b0 + if format_type == FormatType::Json { seq![("format"@, json_string_value("json"@))] } else { seq![] });
        assert(entries_view(body@) =~= b1 + if ollama_options(kwargs@).len() > 0 {
            seq![("options"@, json_object_value(ollama_options(kwargs@)))]
        } else {
            seq![]
        });
    }
    json_object(body)
}

/// The system prompt of an OpenAI chat request for the format asked for.
pub open spec fn openai_system_text(format_type: FormatType) -> Seq<char> {
    match format_type {
        FormatType::Json => "You are a helpful assistant that responds in JSON format. Always return valid JSON that matches the expected structure from the examples."@,
        FormatType::Yaml => "You are a helpful assistant that responds in YAML format. Always return valid YAML that matches the expected structure from the examples."@,
    }
}

/// The system prompt of an OpenAI chat request; see [`openai_system_text`].
pub fn openai_system_prompt(format_type: FormatType) -> (r: &'static str)
    ensures
        r@ == openai_system_text(format_type),
{
    match format_type {
        FormatType::Json => "You are a helpful assistant that responds in JSON format. Always return valid JSON that matches the expected structure from the examples.",
        FormatType::Yaml => "You are a helpful assistant that responds in YAML format. Always return valid YAML that matches the expected structure from the examples.",
    }
}

// ---------------------------------------------------------------------------
// Reading answers.

/// Readers of the text in a provider's answer.
pub struct ResponseParser;

/// The member `k` of a JSON object; `None` for a missing member or a value
/// that is no object.
pub open spec fn member(v: Value, k: Seq<char>) -> Option<Value> {
    match object_entries(v) {
        Some(es) => entry_value(es, k, 0),
        None => None,
    }
}

/// The string member `k` of a JSON object.
pub open spec fn string_member(v: Value, k: Seq<char>) -> Option<Seq<char>> {
    match member(v, k) {
        Some(x) => json_str_of(x),
        None => None,
    }
}

/// The text of an OpenAI answer: the content of the message of its first
/// choice.
pub open spec fn openai_text(v: Value) -> Option<Seq<char>> {
    match member(v, "choices"@) {
        Some(c) => match array_items(c) {
            Some(items) => if items.len() > 0 {
                match member(items[0], "message"@) {
                    Some(m) => string_member(m, "content"@),
                    None => None,
                }
            } else {
                None
            },
            None => None,
        },
        None => None,
    }
}

/// The text of an answer of unknown shape: the first of its members
/// `response`, `text`, `content`, `output` and `result` that is a string;
/// else that of its member `data`, to `fuel` levels.
pub open spec fn generic_text(v: Value, fuel: nat) -> Option<Seq<char>>
    decreases fuel,
{
    if string_member(v, "response"@) is Some {
        string_member(v, "response"@)
    } else if string_member(v, "text"@) is Some {
        string_member(v, "text"@)
    } else if string_member(v, "content"@) is Some {
        string_member(v, "content"@)
    } else if string_member(v, "output"@) is Some {
        string_member(v, "output"@)
    } else if string_member(v, "result"@) is Some {
        string_member(v, "result"@)
    } else if fuel == 0 {
        None
    } else {
        match member(v, "data"@) {
            Some(d) => generic_text(d, (fuel - 1) as nat),
            None => None,
        }
    }
}

fn get_member(v: &Value, k: &str) -> (r: Option<Value>)
    ensures
        r == member(*v, k@),
{
    match json_object_entries(v) {
        Some(entries) => {
            let ghost es = entries_view(entries@);
            let mut i: usize = 0;
            while i < entries.len()
                invariant
                    i <= entries@.len(),
                    es == entries_view(entries@),
                    object_entries(*v) == Some(es),
                    entry_value(es, k@, 0) == entry_value(es, k@, i as int),
                decreases entries@.len() - i,
            {
                if strings_equal(entries[i].0.as_str(), k) {
                    proof {
                        assert(es[i as int] == (entries@[i as int].0@, entries@[i as int].1));
                        assert(entry_value(es, k@, i as int) == Some(entries@[i as int].1));
                        assert(member(*v, k@) == Some(entries@[i as int].1));
                    }
                    let x = entries[i].1.clone();
                    proof {
                        assert(x == entries@[i as int].1);
                    }
                    return Some(x);
                }
                i = i + 1;
            }
            None
        },
        None => None,
    }
}

fn get_string_member(v: &Value, k: &str) -> (r: Option<String>)
    ensures
        match r {
            Some(s) => string_member(*v, k@) == Some(s@),
            None => string_member(*v, k@) is None,
        },
{
    match get_member(v, k) {
        Some(x) => json_as_str(&x),
        None => None,
    }
}

fn generic_text_from(response: &Value, fuel: usize) -> (r: Option<String>)
    ensures
        match r {
            Some(s) => generic_text(*response, fuel as nat) == Some(s@),
            None => generic_text(*response, fuel as nat) is None,
        },
    decreases fuel,
{
    if let Some(t) = get_string_member(response, "response") {
        return Some(t);
    }
    if let Some(t) = get_string_member(response, "text") {
        return Some(t);
    }
    if let Some(t) = get_string_member(response, "content") {
        return Some(t);
    }
    if let Some(t) = get_string_member(response, "output") {
        return Some(t);
    }
    if let Some(t) = get_string_member(response, "result") {
        return Some(t);
    }
    if fuel == 0 {
        return None;
    }
    match get_member(response, "data") {
        Some(d) => generic_text_from(&d, fuel - 1),
        None => None,
    }
}

impl ResponseParser {
    /// The text of an OpenAI answer ([`openai_text`]), or a parsing error.
    pub fn openai_response_text(response: &Value) -> (r: LangExtractResult<String>)
        ensures
            match openai_text(*response) {
                Some(t) => r matches Ok(s) && s@ == t,
                None => r matches Err(LangExtractError::ParsingError(m)) && m@ == "Invalid OpenAI response format"@,
            },
    {
        let err = LangExtractError::parsing("Invalid OpenAI response format");
        let choices = match get_member(response, "choices") {
            Some(c) => c,
            None => {
                return Err(err);
            },
        };
        let items = match json_array_items(&choices) {
            Some(items) => items,
            None => {
                return Err(err);
            },
        };
        if items.len() == 0 {
            return Err(err);
        }
        let message = match get_member(&items[0], "message") {
            Some(m) => m,
            None => {
                return Err(err);
            },
        };
        match get_string_member(&message, "content") {
            Some(s) => Ok(s),
            None => Err(err),
        }
    }

    /// The `response` member of an Ollama answer, or a parsing error.
    pub fn ollama_response_text(response: &Value) -> (r: LangExtractResult<String>)
        ensures
            match string_member(*response, "response"@) {
                Some(t) => r matches Ok(s) && s@ == t,
                None => r matches Err(LangExtractError::ParsingError(m)) && m@ == "Missing 'response' field in Ollama response"@,
            },
    {
        match get_string_member(response, "response") {
            Some(s) => Ok(s),
            None => Err(LangExtractError::parsing("Missing 'response' field in Ollama response")),
        }
    }

    /// The text of an answer of unknown shape ([`generic_text`], following
    /// `data` as deep as `serde_json` parses), or a parsing error.
    pub fn generic_response_text(response: &Value) -> (r: LangExtractResult<String>)
        ensures
            match generic_text(*response, json_walk_depth()) {
                Some(t) => r matches Ok(s) && s@ == t,
                None => r matches Err(LangExtractError::ParsingError(m)) && m@ == "Could not extract text from response"@,
            },
    {
        match generic_text_from(response, 200) {
            Some(s) => Ok(s),
            None => Err(LangExtractError::parsing("Could not extract text from response")),
        }
    }
}

} // verus!
