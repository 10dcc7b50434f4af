use langextract::data::{Extraction, FormatType};
use langextract::exceptions::LangExtractError;
use langextract::http_client::{ollama_request_body, openai_system_prompt, retry_step, HttpConfig, RequestBuilder, ResponseParser, RetryStep};
use langextract::inference::parse_output;
use langextract::resolver::{parse_json_response, parse_response, try_parse_response, validate_extractions, CoercionDetail, CoercionTargetType};

#[test]
fn test_http_config_default() {
    let config = HttpConfig::default();
    assert_eq!(config.timeout_seconds, 120);
    assert_eq!(config.max_retries, 3);
    assert_eq!(config.base_delay_seconds, 30);
    assert!(config.exponential_backoff);
}

#[test]
fn retry_waits_then_gives_up() {
    let e = LangExtractError::parsing("boom");
    assert_eq!(retry_step(0, 3, 30, true, "Op", &e), RetryStep::Wait(30));
    assert_eq!(retry_step(2, 3, 30, true, "Op", &e), RetryStep::Wait(90));
    assert_eq!(retry_step(2, 3, 30, false, "Op", &e), RetryStep::Wait(30));
    match retry_step(3, 3, 30, true, "Op", &e) {
        RetryStep::GiveUp(LangExtractError::InferenceError { message, provider }) => {
            assert_eq!(message, "Op failed after 4 attempts. Last error: Parsing error: boom");
            assert!(provider.is_none());
        }
        other => panic!("unexpected {:?}", other),
    }
}

#[test]
fn test_request_builder_messages() {
    let system = RequestBuilder::openai_system_message("You are helpful");
    let user = RequestBuilder::openai_user_message("Hello");
    assert_eq!(system["role"], "system");
    assert_eq!(system["content"], "You are helpful");
    assert_eq!(user["role"], "user");
    assert_eq!(user["content"], "Hello");
}

#[test]
fn test_request_builder_ollama() {
    let kwargs = vec![("temperature".to_string(), serde_json::Value::from(0.5))];
    let request = ollama_request_body("mistral", "Hello world", FormatType::Json, &kwargs);
    assert_eq!(request["model"], "mistral");
    assert_eq!(request["prompt"], "Hello world");
    assert_eq!(request["stream"], false);
    assert_eq!(request["format"], "json");
    assert_eq!(request["options"]["temperature"], 0.5);
    let plain = ollama_request_body("m", "p", FormatType::Yaml, &Vec::new());
    assert!(plain.get("options").is_none());
    assert!(plain.get("format").is_none());
    assert!(openai_system_prompt(FormatType::Yaml).contains("YAML"));
}

#[test]
fn test_response_parser_openai() {
    let response: serde_json::Value = serde_json::from_str(r#"{"choices": [{"message": {"content": "Hello, world!"}}]}"#).unwrap();
    let text = ResponseParser::openai_response_text(&response).unwrap();
    assert_eq!(text, "Hello, world!");
    let bad: serde_json::Value = serde_json::from_str(r#"{"choices": []}"#).unwrap();
    assert!(ResponseParser::openai_response_text(&bad).is_err());
}

#[test]
fn test_response_parser_ollama() {
    let response: serde_json::Value = serde_json::from_str(r#"{"response": "Hello from Ollama!"}"#).unwrap();
    let text = ResponseParser::ollama_response_text(&response).unwrap();
    assert_eq!(text, "Hello from Ollama!");
}

#[test]
fn test_response_parser_generic() {
    let response1: serde_json::Value = serde_json::from_str(r#"{"text": "Generic response"}"#).unwrap();
    let response2: serde_json::Value = serde_json::from_str(r#"{"data": {"content": "Nested response"}}"#).unwrap();
    assert_eq!(ResponseParser::generic_response_text(&response1).unwrap(), "Generic response");
    assert_eq!(ResponseParser::generic_response_text(&response2).unwrap(), "Nested response");
    let none: serde_json::Value = serde_json::from_str(r#"{"x": 1}"#).unwrap();
    assert!(ResponseParser::generic_response_text(&none).is_err());
}

#[test]
fn test_parse_valid_json() {
    let extractions = parse_response(r#"[{"person": "John Doe", "age": "30"}]"#).unwrap();
    assert_eq!(extractions.len(), 2);
    let person = extractions.iter().find(|e| e.extraction_class == "person").unwrap();
    assert_eq!(person.extraction_text, "John Doe");
    assert_eq!(person.group_index, Some(0));
    let age = extractions.iter().find(|e| e.extraction_class == "age").unwrap();
    assert_eq!(age.extraction_text, "30");
}

#[test]
fn test_parse_wrapped_json() {
    let extractions = parse_response("Here is the result: {\"name\": \"Alice\", \"city\": \"NYC\"} Done.").unwrap();
    assert_eq!(extractions.len(), 2);
    let name = extractions.iter().find(|e| e.extraction_class == "name").unwrap();
    assert_eq!(name.extraction_text, "Alice");
}

#[test]
fn test_parse_invalid_json() {
    let result = parse_response("This is not JSON at all");
    match result {
        Err(LangExtractError::ParsingError(m)) => assert_eq!(m, "Could not parse response as JSON: This is not JSON at all"),
        other => panic!("unexpected {:?}", other),
    }
}

#[test]
fn reversed_braces_are_refused_without_panic() {
    assert!(try_parse_response("} then {").is_none());
    assert!(try_parse_response("[1, 2]").is_some());
}

#[test]
fn parse_items_of_data_and_strings() {
    let v: serde_json::Value = serde_json::from_str(r#"{"data": ["a", {"k": 1, "n": null}]}"#).unwrap();
    let es = parse_json_response(&v).unwrap();
    assert_eq!(es.len(), 2);
    assert_eq!(es[0].extraction_class, "item_0");
    assert_eq!(es[0].extraction_text, "a");
    assert_eq!(es[1].extraction_class, "k");
    assert_eq!(es[1].extraction_text, "1");
    assert_eq!(es[1].group_index, Some(1));
    let bad: serde_json::Value = serde_json::from_str("[1]").unwrap();
    match parse_json_response(&bad) {
        Err(LangExtractError::ParsingError(m)) => assert_eq!(m, "Unsupported item type: Number(1)"),
        other => panic!("unexpected {:?}", other),
    }
    let flat: serde_json::Value = serde_json::from_str(r#"{"ok": true, "list": [1, 2]}"#).unwrap();
    let es = parse_json_response(&flat).unwrap();
    let list = es.iter().find(|e| e.extraction_class == "list").unwrap();
    assert_eq!(list.extraction_text, "[1,2]");
    let ok = es.iter().find(|e| e.extraction_class == "ok").unwrap();
    assert_eq!(ok.extraction_text, "true");
    assert_eq!(ok.group_index, None);
}

fn detail(name: &str, original: &str, value: Option<serde_json::Value>, success: bool) -> CoercionDetail {
    CoercionDetail {
        field_name: name.to_string(),
        original_value: original.to_string(),
        coerced_value: value,
        target_type: CoercionTargetType::Integer,
        success,
        error_message: None,
    }
}

#[test]
fn test_validation_required_fields() {
    let extractions = vec![Extraction::new("name".to_string(), "John".to_string())];
    let expected = vec!["name".to_string(), "age".to_string()];
    let result = validate_extractions(&extractions, &expected, false, None);
    assert!(result.is_valid);
    let result = validate_extractions(&extractions, &expected, true, None);
    assert!(!result.is_valid);
    assert_eq!(result.errors.len(), 1);
    assert!(result.errors[0].message.contains("age"));
    assert_eq!(result.errors[0].message, "Required field 'age' is missing");
}

#[test]
fn test_validation_empty_extractions() {
    let extractions = vec![Extraction::new("name".to_string(), "  ".to_string())];
    let expected = vec!["name".to_string()];
    let result = validate_extractions(&extractions, &expected, false, None);
    assert!(result.is_valid);
    assert_eq!(result.warnings.len(), 1);
    assert!(result.warnings[0].message.contains("Empty extraction text"));
}

#[test]
fn test_validation_low_extraction_count() {
    let extractions = vec![Extraction::new("name".to_string(), "John".to_string())];
    let expected: Vec<String> = ["a", "b", "c", "d", "e"].iter().map(|s| s.to_string()).collect();
    let result = validate_extractions(&extractions, &expected, false, None);
    assert!(result.is_valid);
    assert!(result.warnings.iter().any(|w| w.message == "Low extraction count: found 1 but expected around 5"));
}

#[test]
fn test_corrected_data_generation() {
    let extractions = vec![
        Extraction::new("age".to_string(), "25".to_string()),
        Extraction::new("note".to_string(), "hello".to_string()),
    ];
    let details = vec![detail("age", "25", Some(serde_json::Value::from(25)), true), detail("note", "hello", None, false)];
    let result = validate_extractions(&extractions, &Vec::new(), false, Some(details));
    let data = result.corrected_data.unwrap();
    assert_eq!(data["age"], 25);
    assert_eq!(data["note"], "hello");
    let summary = result.coercion_summary.unwrap();
    assert_eq!(summary.successful_coercions, 1);
    assert_eq!(summary.failed_coercions, 1);
    assert!(result.raw_output_file.is_none());
}

#[test]
fn test_no_coercion_when_disabled() {
    let extractions = vec![Extraction::new("age".to_string(), "25".to_string())];
    let result = validate_extractions(&extractions, &Vec::new(), false, None);
    assert!(result.coercion_summary.is_none());
    assert!(result.corrected_data.is_none());
}

#[test]
fn parse_output_json_then_yaml() {
    assert_eq!(parse_output("{\"a\": 1}").unwrap()["a"], 1);
    assert_eq!(parse_output("a: 2\nb: x").unwrap()["b"], "x");
    match parse_output("a: [unclosed") {
        Err(LangExtractError::ParsingError(m)) => assert!(m.starts_with("Failed to parse output as JSON or YAML: ")),
        other => panic!("unexpected {:?}", other),
    }
}

#[test]
fn member_values_become_text() {
    let extractions = parse_response(r#"{"person": "John", "age": 30, "ok": true, "none": null, "list": [1, 2], "obj": {"a": "b"}}"#).unwrap();
    let pairs: Vec<(String, String)> =
        extractions.iter().map(|e| (e.extraction_class.clone(), e.extraction_text.clone())).collect();
    assert!(pairs.contains(&("person".to_string(), "John".to_string())));
    assert!(pairs.contains(&("age".to_string(), "30".to_string())));
    assert!(pairs.contains(&("ok".to_string(), "true".to_string())));
    assert!(pairs.contains(&("list".to_string(), "[1,2]".to_string())));
    assert!(pairs.contains(&("obj".to_string(), "{\"a\":\"b\"}".to_string())));
    assert!(!pairs.iter().any(|(c, _)| c == "none"));
    assert_eq!(pairs.len(), 5);
}

#[test]
fn unparsed_answer_is_kept_whole() {
    let v = langextract::resolver::unparsed_response("not json {");
    assert_eq!(v.len(), 1);
    assert_eq!(v[0].extraction_class, "raw_response");
    assert_eq!(v[0].extraction_text, "not json {");
    assert!(v[0].char_interval.is_none());
}
