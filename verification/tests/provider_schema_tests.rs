use langextract::data::{ExampleData, Extraction};
use langextract::providers::{requires_fence_output, ProviderConfig, ProviderType};
use langextract::schema::{Constraint, ConstraintType, FormatModeSchema, ATTRIBUTES_SUFFIX};

#[test]
fn test_provider_type_conversion() {
    assert_eq!("openai".parse::<ProviderType>().unwrap(), ProviderType::OpenAI);
    assert_eq!("ollama".parse::<ProviderType>().unwrap(), ProviderType::Ollama);
    assert_eq!("OPENAI".parse::<ProviderType>().unwrap(), ProviderType::OpenAI);

    assert!(matches!("unknown".parse::<ProviderType>(), Err(_)));

    assert_eq!(ProviderType::OpenAI.to_string(), "openai");
    assert_eq!(ProviderType::Ollama.to_string(), "ollama");
}

#[test]
fn test_provider_config_creation() {
    let openai_config = ProviderConfig::openai("gpt-4", Some("test-key".to_string()));
    assert_eq!(openai_config.provider_type, ProviderType::OpenAI);
    assert_eq!(openai_config.model, "gpt-4");
    assert_eq!(openai_config.api_key, Some("test-key".to_string()));
    assert_eq!(openai_config.base_url, "https://api.openai.com/v1");

    let ollama_config = ProviderConfig::ollama("mistral", None);
    assert_eq!(ollama_config.provider_type, ProviderType::Ollama);
    assert_eq!(ollama_config.model, "mistral");
    assert_eq!(ollama_config.base_url, "http://localhost:11434");
    assert!(ollama_config.api_key.is_none());
}

#[test]
fn test_provider_config_builders() {
    let config = ProviderConfig::custom("https://api.example.com", "custom-model")
        .with_api_key("test-key".to_string())
        .with_header("Custom-Header".to_string(), "value".to_string())
        .with_extra_param("param1".to_string(), serde_json::Value::from("value1"));

    assert_eq!(config.provider_type, ProviderType::Custom);
    assert_eq!(config.api_key, Some("test-key".to_string()));
    let header = config.headers.iter().find(|(k, _)| k == "Custom-Header").map(|(_, v)| v);
    assert_eq!(header, Some(&"value".to_string()));
    let param = config.extra_params.iter().find(|(k, _)| k == "param1").map(|(_, v)| v);
    assert_eq!(param, Some(&serde_json::Value::from("value1")));
}

#[test]
fn with_header_replaces_earlier_value() {
    let config = ProviderConfig::custom("https://api.example.com", "m")
        .with_header("H".to_string(), "a".to_string())
        .with_header("H".to_string(), "b".to_string());
    assert_eq!(config.headers.len(), 1);
    assert_eq!(config.headers[0].1, "b");
}

#[test]
fn fence_output_rules() {
    assert!(requires_fence_output(Some(true), ProviderType::OpenAI, true));
    assert!(!requires_fence_output(Some(false), ProviderType::Ollama, false));
    assert!(!requires_fence_output(None, ProviderType::OpenAI, true));
    assert!(requires_fence_output(None, ProviderType::OpenAI, false));
    assert!(requires_fence_output(None, ProviderType::Ollama, true));
}

#[test]
fn test_constraint_creation() {
    let constraint = Constraint::none();
    assert_eq!(constraint.constraint_type, ConstraintType::Unconstrained);

    let default_constraint = Constraint::default();
    assert_eq!(default_constraint.constraint_type, ConstraintType::Unconstrained);
}

#[test]
fn test_format_mode_schema() {
    let mut schema = FormatModeSchema::new("json");
    assert_eq!(schema.format(), "json");
    assert!(schema.supports_strict_mode());

    schema.set_format("yaml".to_string());
    assert_eq!(schema.format(), "yaml");
    assert!(!schema.supports_strict_mode());
}

#[test]
fn test_format_mode_schema_provider_config() {
    let schema = FormatModeSchema::new("json");
    let config = schema.to_provider_config();
    let format = config.iter().find(|(k, _)| k == "format").map(|(_, v)| v);
    assert_eq!(format, Some(&serde_json::Value::from("json")));
}

#[test]
fn test_format_mode_schema_sync() {
    let mut schema = FormatModeSchema::new("json");
    let kwargs = vec![("format".to_string(), serde_json::Value::from("yaml"))];
    schema.sync_with_provider_kwargs(&kwargs);
    assert_eq!(schema.format(), "yaml");
    assert!(!schema.supports_strict_mode());
}

#[test]
fn test_format_mode_schema_from_examples() {
    let examples = vec![ExampleData::new(
        "Test text".to_string(),
        vec![Extraction::new("test".to_string(), "value".to_string())],
    )];

    let schema = FormatModeSchema::from_examples(&examples, ATTRIBUTES_SUFFIX).unwrap();
    assert!(schema.supports_strict_mode());
}

#[test]
fn config_templates_name_the_provider() {
    let t = langextract::providers::generate_config_template(ProviderType::Ollama);
    assert!(t.starts_with("# Ollama Configuration\n"));
    assert!(t.contains("model_url: \"http://localhost:11434\"\n"));
    let o = langextract::providers::generate_config_template(ProviderType::OpenAI);
    assert!(o.contains("provider: \"openai\""));
    assert!(!o.contains("model_url"));
}
