use langextract::data::{ExampleData, Extraction, FormatType};
use langextract::templates::{ExampleFormatter, TemplateBuilder, TemplateEngine, Variables};

fn vars(pairs: &[(&str, &str)]) -> Variables {
    let mut v = Variables::new();
    for (k, x) in pairs {
        v.insert(k.to_string(), x.to_string());
    }
    v
}

#[test]
fn test_template_engine_basic() {
    let engine = TemplateEngine::new();
    let template = "Hello {name}, welcome to {place}!";
    let v = vars(&[("name", "John"), ("place", "LangExtract")]);
    let result = engine.render(template, &v).unwrap();
    assert_eq!(result, "Hello John, welcome to LangExtract!");
}

#[test]
fn test_template_engine_missing_var() {
    let engine = TemplateEngine::new();
    let template = "Hello {name}, welcome to {place}!";
    let v = vars(&[("name", "John")]);
    let result = engine.render(template, &v);
    assert!(result.is_err());
}

#[test]
fn test_template_engine_lenient() {
    let engine = TemplateEngine::lenient();
    let template = "Hello {name}, welcome to {place}!";
    let v = vars(&[("name", "John")]);
    let result = engine.render(template, &v).unwrap();
    assert_eq!(result, "Hello John, welcome to !");
}

#[test]
fn variables_insert_then_get() {
    let mut v = Variables::new();
    v.insert("a".to_string(), "1".to_string());
    v.insert("b".to_string(), "2".to_string());
    v.insert("a".to_string(), "3".to_string());
    assert_eq!(v.get("a"), Some(&"3".to_string()));
    assert_eq!(v.get("b"), Some(&"2".to_string()));
    assert_eq!(v.get("c"), None);
    assert_eq!(v.len(), 2);
    assert!(v.contains_key("b"));
}

#[test]
fn test_variable_extraction() {
    let engine = TemplateEngine::new();
    let template = "Hello {name}, welcome to {place}! Your ID is {id}.";
    let v = engine.extract_variables(template);
    assert_eq!(v, vec!["name", "place", "id"]);
}

#[test]
fn validate_reports_missing_variable() {
    let engine = TemplateEngine::new();
    assert!(engine.validate("Hi {x}", &vars(&[("x", "1")])).is_ok());
    assert!(engine.validate("Hi {x}", &vars(&[])).is_err());
}

#[test]
fn test_example_formatter_json() {
    let formatter = ExampleFormatter::new(FormatType::Json);
    let example = ExampleData::new(
        "John Doe is 30 years old".to_string(),
        vec![
            Extraction::new("person".to_string(), "John Doe".to_string()),
            Extraction::new("age".to_string(), "30".to_string()),
        ],
    );
    let result = formatter.format_examples(&[example]).unwrap();
    assert!(result.contains("Examples:"));
    assert!(result.contains("John Doe"));
    assert!(result.contains("person"));
    assert!(result.contains("age"));
}

#[test]
fn example_formatter_yaml_and_limit() {
    let formatter = ExampleFormatter::new(FormatType::Yaml).with_max_examples(1);
    let a = ExampleData::new("first text".to_string(), vec![Extraction::new("k".to_string(), "v".to_string())]);
    let b = ExampleData::new("second text".to_string(), vec![Extraction::new("k".to_string(), "w".to_string())]);
    let result = formatter.format_examples(&[a, b]).unwrap();
    assert!(result.contains("first text"));
    assert!(!result.contains("second text"));
    assert!(result.contains("k: v"));
}

#[test]
fn test_template_builder() {
    let template = TemplateBuilder::new(FormatType::Json).with_reasoning(true).build();
    assert!(template.contains("You are an expert"));
    assert!(template.contains("JSON"));
    assert!(template.contains("Think step by step"));
    assert!(template.contains("{task_description}"));
    assert!(template.contains("{examples}"));
    assert!(template.contains("{input_text}"));
}

#[test]
fn test_template_builder_with_variables() {
    let v = vars(&[
        ("task_description", "Extract names"),
        ("examples", "Example: John -> person: John"),
        ("input_text", "Alice Smith"),
        ("additional_context", ""),
    ]);
    let result = TemplateBuilder::new(FormatType::Json).build_with_variables(v).unwrap();
    assert!(result.contains("Extract names"));
    assert!(result.contains("Alice Smith"));
    assert!(result.contains("Example: John"));
}

#[test]
fn reasoning_toggle_inserts_and_removes() {
    let plain = TemplateBuilder::new(FormatType::Json).build();
    let on = TemplateBuilder::new(FormatType::Json).with_reasoning(true).build();
    let on_off = TemplateBuilder::new(FormatType::Json).with_reasoning(true).with_reasoning(false).build();
    assert!(on.contains("Think step by step"));
    assert!(!plain.contains("Think step by step"));
    assert_eq!(on_off, plain);
    let at = plain.find("\n\nNow extract information").unwrap();
    let reasoning = "\n\nThink step by step:\n1. Read the text carefully\n2. Identify the requested information\n3. Extract it in the exact format shown in examples";
    assert_eq!(on, format!("{}{}{}", &plain[..at], reasoning, &plain[at..]));
}

#[test]
fn example_limit_takes_first_examples() {
    let exs = vec![
        ExampleData::new("one".to_string(), vec![Extraction::new("a".to_string(), "1".to_string())]),
        ExampleData::new("two".to_string(), vec![Extraction::new("b".to_string(), "2".to_string())]),
    ];
    let limited = ExampleFormatter::new(FormatType::Json).with_max_examples(1).format_examples(&exs).unwrap();
    let first = ExampleFormatter::new(FormatType::Json).format_examples(&exs[..1]).unwrap();
    assert_eq!(limited, first);
    let roomy = ExampleFormatter::new(FormatType::Json).with_max_examples(5).format_examples(&exs).unwrap();
    assert_eq!(roomy, ExampleFormatter::new(FormatType::Json).format_examples(&exs).unwrap());
    let none = ExampleFormatter::new(FormatType::Json).with_max_examples(0).format_examples(&exs).unwrap();
    assert_eq!(none, "\n\nExamples:\n");
}
