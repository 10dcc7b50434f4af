use langextract::exceptions::{InferenceError, LangExtractError, ResolverError};
use langextract::io::{detect_content_type, extract_text_from_html, is_url, normalize_text, ContentType};
use langextract::inference::InferenceOutputError;

#[test]
fn test_error_creation() {
    let config_err = LangExtractError::configuration("Missing API key");
    assert!(config_err.is_configuration_error());
    assert!(!config_err.is_inference_error());

    let inference_err = LangExtractError::inference("Model failed", Some("gemini".to_string()));
    assert!(inference_err.is_inference_error());
    assert_eq!(inference_err.provider().map(|p| p.as_str()), Some("gemini"));

    let parsing_err = LangExtractError::parsing("Invalid JSON");
    assert!(parsing_err.is_parsing_error());
}

#[test]
fn test_inference_error_conversion() {
    let inference_err = InferenceError::ModelNotFound { model_id: "unknown-model".to_string() };
    let lang_err: LangExtractError = inference_err.into_error();
    assert!(lang_err.is_inference_error());
}

#[test]
fn test_error_display() {
    let error = LangExtractError::configuration("Test error message");
    let display = error.to_string();
    assert!(display.contains("Configuration error"));
    assert!(display.contains("Test error message"));
}

#[test]
fn error_display_exact() {
    assert_eq!(LangExtractError::parsing("bad").to_string(), "Parsing error: bad");
    assert_eq!(LangExtractError::invalid_input("x").to_string(), "Invalid input: x");
}

#[test]
fn test_resolver_error_conversion() {
    let resolver_err = ResolverError::ParseError { message: "Invalid JSON structure".to_string() };
    let lang_err: LangExtractError = resolver_err.into_error();
    assert!(lang_err.is_parsing_error());
}

#[test]
fn inference_output_error_message() {
    let e = InferenceOutputError::new("empty batch".to_string());
    assert_eq!(e.message, "empty batch");
    assert_eq!(e.to_string(), "No scored outputs available from the language model: empty batch");
}

#[test]
fn test_is_url() {
    assert!(is_url("https://example.com"));
    assert!(is_url("http://example.com"));
    assert!(!is_url("example.com"));
    assert!(!is_url("ftp://example.com"));
    assert!(!is_url("file:///path/to/file"));
}

#[test]
fn test_normalize_text() {
    let input = "  Hello    world  \n\n  How are you?  ";
    let expected = "Hello world How are you?";
    assert_eq!(normalize_text(input), expected);
}

#[test]
fn test_extract_text_from_html() {
    let html = "<html><body><h1>Hello</h1><p>World</p></body></html>";
    let text = extract_text_from_html(html);
    assert_eq!(text, "Hello World");
}

#[test]
fn unclosed_tag_is_kept() {
    assert_eq!(extract_text_from_html("a < b"), "a < b");
}

#[test]
fn test_detect_content_type() {
    assert_eq!(detect_content_type(r#"{"key": "value"}"#), ContentType::Json);
    assert_eq!(detect_content_type("key: value\nother: data"), ContentType::Yaml);
    assert_eq!(detect_content_type("<html><body>Hello</body></html>"), ContentType::Html);
    assert_eq!(detect_content_type("Just plain text"), ContentType::PlainText);
}

#[test]
fn test_content_type_edge_cases() {
    assert_eq!(detect_content_type(r#"{"invalid": json"#), ContentType::PlainText);
    assert_eq!(detect_content_type(""), ContentType::PlainText);
    assert_eq!(detect_content_type("   \n\t  "), ContentType::PlainText);
}

#[test]
fn resolver_error_messages() {
    let missing = ResolverError::MissingFields { fields: vec!["a".to_string(), "b".to_string()] };
    assert_eq!(missing.to_string(), "Missing required fields: [\"a\", \"b\"]");
    let parse = ResolverError::ParseError { message: "x".to_string() };
    assert_eq!(parse.to_string(), "Failed to parse output: x");
}
