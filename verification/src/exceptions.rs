//! Error types shared by the whole library.

use vstd::prelude::*;
use crate::text::push_str;

verus! {

/// Every failure the library reports.
///
/// Errors whose cause is an outside value (a network or file error) carry
/// that cause's rendered message.
#[derive(Debug, Clone, PartialEq, Eq)]
pub enum LangExtractError {
    /// Configuration problems such as a missing key or an unknown model.
    ConfigurationError(String),
    /// A language model call failed.
    InferenceError { message: String, provider: Option<String> },
    /// The caller handed in something the library cannot work with.
    InvalidInput(String),
    /// A download or another network exchange failed.
    NetworkError(String),
    /// JSON or YAML could not be read.
    ParsingError(String),
    /// A file operation failed.
    IoError(String),
    /// A value could not be serialized.
    SerializationError(String),
    /// Text processing failed.
    ProcessingError(String),
    /// Tokenization failed.
    TokenizationError(String),
    /// Chunking failed.
    ChunkingError(String),
    /// Rendering an export failed.
    VisualizationError(String),
    /// Anything else.
    UnexpectedError(String),
}

/// Result type of the library's fallible operations.
pub type LangExtractResult<T> = Result<T, LangExtractError>;

/// The text `prefix` followed by `message`.
pub open spec fn prefixed(prefix: Seq<char>, message: Seq<char>) -> Seq<char> {
    prefix + message
}

fn prefixed_string(prefix: &str, message: &String) -> (r: String)
    ensures
        r@ == prefixed(prefix@, message@),
{
    let mut r = String::new();
    push_str(&mut r, prefix);
    push_str(&mut r, message.as_str());
    proof {
        assert(r@ =~= prefixed(prefix@, message@));
    }
    r
}

impl LangExtractError {
    /// A configuration error.
    pub fn configuration(message: &str) -> (e: Self)
        ensures
            e matches LangExtractError::ConfigurationError(m) && m@ == message@,
    {
        LangExtractError::ConfigurationError(message.to_string())
    }

    /// An inference error naming the provider that failed, if known.
    pub fn inference(message: &str, provider: Option<String>) -> (e: Self)
        ensures
            e matches LangExtractError::InferenceError { message: m, provider: p }
                && m@ == message@ && p == provider,
    {
        LangExtractError::InferenceError { message: message.to_string(), provider }
    }

    /// An inference error without provider information.
    pub fn inference_simple(message: &str) -> (e: Self)
        ensures
            e matches LangExtractError::InferenceError { message: m, provider: p }
                && m@ == message@ && p is None,
    {
        LangExtractError::InferenceError { message: message.to_string(), provider: None }
    }

    /// An invalid-input error.
    pub fn invalid_input(message: &str) -> (e: Self)
        ensures
            e matches LangExtractError::InvalidInput(m) && m@ == message@,
    {
        LangExtractError::InvalidInput(message.to_string())
    }

    /// A parsing error.
    pub fn parsing(message: &str) -> (e: Self)
        ensures
            e matches LangExtractError::ParsingError(m) && m@ == message@,
    {
        LangExtractError::ParsingError(message.to_string())
    }

    /// A serialization error.
    pub fn serialization(message: &str) -> (e: Self)
        ensures
            e matches LangExtractError::SerializationError(m) && m@ == message@,
    {
        LangExtractError::SerializationError(message.to_string())
    }

    /// A processing error.
    pub fn processing(message: &str) -> (e: Self)
        ensures
            e matches LangExtractError::ProcessingError(m) && m@ == message@,
    {
        LangExtractError::ProcessingError(message.to_string())
    }

    /// A tokenization error.
    pub fn tokenization(message: &str) -> (e: Self)
        ensures
            e matches LangExtractError::TokenizationError(m) && m@ == message@,
    {
        LangExtractError::TokenizationError(message.to_string())
    }

    /// A chunking error.
    pub fn chunking(message: &str) -> (e: Self)
        ensures
            e matches LangExtractError::ChunkingError(m) && m@ == message@,
    {
        LangExtractError::ChunkingError(message.to_string())
    }

    /// A visualization error.
    pub fn visualization(message: &str) -> (e: Self)
        ensures
            e matches LangExtractError::VisualizationError(m) && m@ == message@,
    {
        LangExtractError::VisualizationError(message.to_string())
    }

    /// An unexpected error.
    pub fn unexpected(message: &str) -> (e: Self)
        ensures
            e matches LangExtractError::UnexpectedError(m) && m@ == message@,
    {
        LangExtractError::UnexpectedError(message.to_string())
    }

    /// The provider named by an inference error.
    pub fn provider(&self) -> (p: Option<&String>)
        ensures
            p == (match self {
                LangExtractError::InferenceError { provider: Some(name), .. } => Some(name),
                _ => None,
            }),
    {
        match self {
            LangExtractError::InferenceError { provider: Some(name), .. } => Some(name),
            _ => None,
        }
    }

    /// Whether this is a configuration error.
    pub fn is_configuration_error(&self) -> (b: bool)
        ensures
            b == self is ConfigurationError,
    {
        matches!(self, LangExtractError::ConfigurationError(_))
    }

    /// Whether this is an inference error.
    pub fn is_inference_error(&self) -> (b: bool)
        ensures
            b == self is InferenceError,
    {
        matches!(self, LangExtractError::InferenceError { .. })
    }

    /// Whether this is a network error.
    pub fn is_network_error(&self) -> (b: bool)
        ensures
            b == self is NetworkError,
    {
        matches!(self, LangExtractError::NetworkError(_))
    }

    /// Whether this is a parsing error.
    pub fn is_parsing_error(&self) -> (b: bool)
        ensures
            b == self is ParsingError,
    {
        matches!(self, LangExtractError::ParsingError(_))
    }

    /// The human-readable rendering of the error.
    pub fn to_string(&self) -> (r: String)
        ensures
            r@ == self.spec_message(),
    {
        match self {
            LangExtractError::ConfigurationError(m) => prefixed_string("Configuration error: ", m),
            LangExtractError::InferenceError { message, .. } => prefixed_string("Inference error: ", message),
            LangExtractError::InvalidInput(m) => prefixed_string("Invalid input: ", m),
            LangExtractError::NetworkError(m) => prefixed_string("Network error: ", m),
            LangExtractError::ParsingError(m) => prefixed_string("Parsing error: ", m),
            LangExtractError::IoError(m) => prefixed_string("I/O error: ", m),
            LangExtractError::SerializationError(m) => prefixed_string("Serialization error: ", m),
            LangExtractError::ProcessingError(m) => prefixed_string("Processing error: ", m),
            LangExtractError::TokenizationError(m) => prefixed_string("Tokenization error: ", m),
            LangExtractError::ChunkingError(m) => prefixed_string("Chunking error: ", m),
            LangExtractError::VisualizationError(m) => prefixed_string("Visualization error: ", m),
            LangExtractError::UnexpectedError(m) => prefixed_string("Unexpected error: ", m),
        }
    }

    /// What [`LangExtractError::to_string`] renders.
    pub open spec fn spec_message(&self) -> Seq<char> {
        match self {
            LangExtractError::ConfigurationError(m) => prefixed("Configuration error: "@, m@),
            LangExtractError::InferenceError { message, .. } => prefixed("Inference error: "@, message@),
            LangExtractError::InvalidInput(m) => prefixed("Invalid input: "@, m@),
            LangExtractError::NetworkError(m) => prefixed("Network error: "@, m@),
            LangExtractError::ParsingError(m) => prefixed("Parsing error: "@, m@),
            LangExtractError::IoError(m) => prefixed("I/O error: "@, m@),
            LangExtractError::SerializationError(m) => prefixed("Serialization error: "@, m@),
            LangExtractError::ProcessingError(m) => prefixed("Processing error: "@, m@),
            LangExtractError::TokenizationError(m) => prefixed("Tokenization error: "@, m@),
            LangExtractError::ChunkingError(m) => prefixed("Chunking error: "@, m@),
            LangExtractError::VisualizationError(m) => prefixed("Visualization error: "@, m@),
            LangExtractError::UnexpectedError(m) => prefixed("Unexpected error: "@, m@),
        }
    }
}


/// Failures of language-model inference.
#[derive(Debug, Clone, PartialEq, Eq)]
pub enum InferenceError {
    /// The model gave no output.
    NoOutputsAvailable { message: String },
    /// The provider's rate limit was hit.
    RateLimitExceeded { provider: String },
    /// The model configuration is invalid.
    InvalidConfiguration { message: String },
    /// The model is unknown.
    ModelNotFound { model_id: String },
    /// The provider refused the credentials.
    AuthenticationFailed { provider: String, message: String },
    /// The provider's quota is used up.
    QuotaExceeded { provider: String },
    /// The provider is unavailable.
    ServiceUnavailable { provider: String },
    /// Any other failure.
    InferenceFailed { message: String },
}

impl InferenceError {
    /// The message of the error.
    pub open spec fn spec_message(&self) -> Seq<char> {
        match self {
            InferenceError::NoOutputsAvailable { message } => "No outputs available: "@ + message@,
            InferenceError::RateLimitExceeded { provider } => "Rate limit exceeded for provider "@ + provider@,
            InferenceError::InvalidConfiguration { message } => "Invalid model configuration: "@ + message@,
            InferenceError::ModelNotFound { model_id } => "Model not found: "@ + model_id@,
            InferenceError::AuthenticationFailed { provider, message } => "Authentication failed for provider "@
                + provider@ + ": "@ + message@,
            InferenceError::QuotaExceeded { provider } => "Quota exceeded for provider "@ + provider@,
            InferenceError::ServiceUnavailable { provider } => "Service unavailable for provider "@ + provider@,
            InferenceError::InferenceFailed { message } => "Inference failed: "@ + message@,
        }
    }

    /// The provider the error names, if any.
    pub open spec fn spec_provider(&self) -> Option<String> {
        match self {
            InferenceError::RateLimitExceeded { provider } => Some(*provider),
            InferenceError::AuthenticationFailed { provider, .. } => Some(*provider),
            InferenceError::QuotaExceeded { provider } => Some(*provider),
            InferenceError::ServiceUnavailable { provider } => Some(*provider),
            _ => None,
        }
    }

    /// The message of the error.
    pub fn to_string(&self) -> (r: String)
        ensures
            r@ == self.spec_message(),
    {
        let mut r = String::new();
        match self {
            InferenceError::NoOutputsAvailable { message } => {
                push_str(&mut r, "No outputs available: ");
                push_str(&mut r, message.as_str());
            },
            InferenceError::RateLimitExceeded { provider } => {
                push_str(&mut r, "Rate limit exceeded for provider ");
                push_str(&mut r, provider.as_str());
            },
            InferenceError::InvalidConfiguration { message } => {
                push_str(&mut r, "Invalid model configuration: ");
                push_str(&mut r, message.as_str());
            },
            InferenceError::ModelNotFound { model_id } => {
                push_str(&mut r, "Model not found: ");
                push_str(&mut r, model_id.as_str());
            },
            InferenceError::AuthenticationFailed { provider, message } => {
                push_str(&mut r, "Authentication failed for provider ");
                push_str(&mut r, provider.as_str());
                push_str(&mut r, ": ");
                push_str(&mut r, message.as_str());
            },
            InferenceError::QuotaExceeded { provider } => {
                push_str(&mut r, "Quota exceeded for provider ");
                push_str(&mut r, provider.as_str());
            },
            InferenceError::ServiceUnavailable { provider } => {
                push_str(&mut r, "Service unavailable for provider ");
                push_str(&mut r, provider.as_str());
            },
            InferenceError::InferenceFailed { message } => {
                push_str(&mut r, "Inference failed: ");
                push_str(&mut r, message.as_str());
            },
        }
        r
    }

    /// The library error for an inference error: an inference error with its
    /// message and the provider it names.
    pub fn into_error(self) -> (e: LangExtractError)
        ensures
            e matches LangExtractError::InferenceError { message, provider } && message@ == self.spec_message()
                && provider == self.spec_provider(),
    {
        let message = self.to_string();
        let provider = match &self {
            InferenceError::RateLimitExceeded { provider } => Some(provider.clone()),
            InferenceError::AuthenticationFailed { provider, .. } => Some(provider.clone()),
            InferenceError::QuotaExceeded { provider } => Some(provider.clone()),
            InferenceError::ServiceUnavailable { provider } => Some(provider.clone()),
            _ => None,
        };
        LangExtractError::InferenceError { message, provider }
    }
}

/// How a list of names is rendered for debugging.
pub uninterp spec fn debug_rendering(names: Seq<Seq<char>>) -> Seq<char>;

/// The `Debug` rendering of a list of strings, as `format!("{:?}")` gives
/// it. Stated: the result is [`debug_rendering`] of the texts.
#[verifier::external_body]
fn debug_list(names: &Vec<String>) -> (r: String)
    ensures
        r@ == debug_rendering(names@.map_values(|s: String| s@)),
{
    format!("{:?}", names)
}

/// Failures of reading model output.
#[derive(Debug, Clone, PartialEq, Eq)]
pub enum ResolverError {
    /// The output could not be parsed.
    ParseError { message: String },
    /// The output had the wrong format.
    InvalidFormat { expected: String, actual: String },
    /// Fields the output must hold are missing.
    MissingFields { fields: Vec<String> },
    /// The output does not fit the schema.
    SchemaValidationFailed { message: String },
}

impl ResolverError {
    /// The message of the error.
    pub open spec fn spec_message(&self) -> Seq<char> {
        match self {
            ResolverError::ParseError { message } => "Failed to parse output: "@ + message@,
            ResolverError::InvalidFormat { expected, actual } => "Invalid output format: expected "@ + expected@
                + ", got "@ + actual@,
            ResolverError::MissingFields { fields } => "Missing required fields: "@ + debug_rendering(
                fields@.map_values(|s: String| s@),
            ),
            ResolverError::SchemaValidationFailed { message } => "Schema validation failed: "@ + message@,
        }
    }

    /// The message of the error.
    pub fn to_string(&self) -> (r: String)
        ensures
            r@ == self.spec_message(),
    {
        let mut r = String::new();
        match self {
            ResolverError::ParseError { message } => {
                push_str(&mut r, "Failed to parse output: ");
                push_str(&mut r, message.as_str());
            },
            ResolverError::InvalidFormat { expected, actual } => {
                push_str(&mut r, "Invalid output format: expected ");
                push_str(&mut r, expected.as_str());
                push_str(&mut r, ", got ");
                push_str(&mut r, actual.as_str());
            },
            ResolverError::MissingFields { fields } => {
                push_str(&mut r, "Missing required fields: ");
                let list = debug_list(fields);
                push_str(&mut r, list.as_str());
            },
            ResolverError::SchemaValidationFailed { message } => {
                push_str(&mut r, "Schema validation failed: ");
                push_str(&mut r, message.as_str());
            },
        }
        r
    }

    /// The library error for a resolver error: a parsing error with its
    /// message.
    pub fn into_error(self) -> (e: LangExtractError)
        ensures
            e matches LangExtractError::ParsingError(m) && m@ == self.spec_message(),
    {
        LangExtractError::ParsingError(self.to_string())
    }
}

} // verus!
