use langextract::data::{AlignmentStatus, AnnotatedDocument, CharInterval, ExampleData, Extraction};
use langextract::layers::{export_pipeline_flattened_json, export_pipeline_html, highlight_text_html_with_layers, LayeredSpan};
use langextract::pipeline::{PipelineStep, StepResult};
use langextract::visualization::{
    count_extraction_classes, csv_escape, export_document, find_char_boundary, highlight_text_html,
    highlight_text_markdown, html_escape, ExportConfig, ExportFormat,
};

fn ex(class: &str, text: &str, start: usize, end: usize, status: AlignmentStatus, idx: usize, desc: Option<&str>) -> Extraction {
    Extraction {
        extraction_class: class.to_string(),
        extraction_text: text.to_string(),
        char_interval: Some(CharInterval::new(Some(start), Some(end))),
        alignment_status: Some(status),
        extraction_index: Some(idx),
        group_index: Some(0),
        description: desc.map(|d| d.to_string()),
        attributes: Some(Vec::new()),
        token_interval: None,
    }
}

fn create_sample_document() -> AnnotatedDocument {
    let text = "John Smith works at TechCorp and earns $50,000.";
    let extractions = vec![
        ex("person", "John Smith", 0, 10, AlignmentStatus::MatchExact, 0, Some("Person name")),
        ex("company", "TechCorp", 20, 28, AlignmentStatus::MatchExact, 1, None),
        ex("salary", "$50,000", 39, 46, AlignmentStatus::MatchFuzzy, 2, Some("Annual salary")),
    ];
    AnnotatedDocument { document_id: Some("test_doc".to_string()), text: Some(text.to_string()), extractions: Some(extractions) }
}

#[test]
fn test_text_export() {
    let document = create_sample_document();
    let config = ExportConfig { format: ExportFormat::Text, show_char_intervals: true, ..Default::default() };
    let result = export_document(&document, &config).unwrap();
    assert!(result.contains("EXTRACTION VISUALIZATION"));
    assert!(result.contains("John Smith"));
    assert!(result.contains("TechCorp"));
    assert!(result.contains("$50,000"));
    assert!(result.contains("Position:"));
    assert!(result.contains("Statistics:"));
    assert!(result.contains("   Position: CharInterval { start_pos: Some(0), end_pos: Some(10) }\n"));
    assert!(result.contains("     • person: 1 instance(s)\n"));
}

#[test]
fn test_html_export() {
    let document = create_sample_document();
    let config = ExportConfig {
        format: ExportFormat::Html,
        title: Some("Test HTML Export".to_string()),
        highlight_extractions: true,
        show_char_intervals: true,
        ..Default::default()
    };
    let result = export_document(&document, &config).unwrap();
    assert!(result.contains("<!DOCTYPE html>"));
    assert!(result.contains("<title>Test HTML Export</title>"));
    assert!(result.contains("extraction-highlight"));
    assert!(result.contains("John Smith"));
    assert!(result.contains("TechCorp"));
    assert!(result.contains("extraction-card"));
    assert!(result.contains("stats-grid"));
    assert!(result.contains("</html>"));
}

#[test]
fn test_html_export_with_custom_css() {
    let document = create_sample_document();
    let custom_css = "body { background: red; }";
    let config = ExportConfig { format: ExportFormat::Html, custom_css: Some(custom_css.to_string()), ..Default::default() };
    let result = export_document(&document, &config).unwrap();
    assert!(result.contains(custom_css));
}

#[test]
fn test_markdown_export() {
    let document = create_sample_document();
    let config = ExportConfig {
        format: ExportFormat::Markdown,
        title: Some("Test Markdown".to_string()),
        show_char_intervals: true,
        highlight_extractions: true,
        ..Default::default()
    };
    let result = export_document(&document, &config).unwrap();
    assert!(result.starts_with("# Test Markdown"));
    assert!(result.contains("## 📄 Document Text"));
    assert!(result.contains("## 🎯 Extractions"));
    assert!(result.contains("### 1. person"));
    assert!(result.contains("**Text:** John Smith"));
    assert!(result.contains("**Position:** 0-10"));
    assert!(result.contains("| Class | Count |"));
    assert!(result.contains("| person | 1 |"));
}

#[test]
fn markdown_highlight_bolds_extractions() {
    let document = create_sample_document();
    let text = document.text.clone().unwrap();
    let md = highlight_text_markdown(&text, &document).unwrap();
    assert_eq!(md, "```\n**John Smith** works at **TechCorp** and earns **$50,000**.\n```\n");
}

#[test]
fn test_json_export() {
    let document = create_sample_document();
    let config = ExportConfig {
        format: ExportFormat::Json,
        show_char_intervals: true,
        include_text: true,
        include_statistics: true,
        ..Default::default()
    };
    let result = export_document(&document, &config).unwrap();
    let parsed: serde_json::Value = serde_json::from_str(&result).unwrap();
    assert_eq!(parsed["document_id"], "test_doc");
    assert!(parsed["text"].is_string());
    assert!(parsed["extractions"].is_array());
    assert!(parsed["statistics"].is_object());
    let extractions = parsed["extractions"].as_array().unwrap();
    assert_eq!(extractions.len(), 3);
    let first_extraction = &extractions[0];
    assert_eq!(first_extraction["extraction_class"], "person");
    assert_eq!(first_extraction["extraction_text"], "John Smith");
    assert!(first_extraction["char_interval"].is_object());
    assert_eq!(first_extraction["char_interval"]["alignment_status"], "MatchExact");
    let stats = &parsed["statistics"];
    assert_eq!(stats["total_extractions"], 3);
    assert_eq!(stats["unique_classes"], 3);
    assert_eq!(stats["extraction_classes"]["person"], 1);
}

#[test]
fn test_csv_export() {
    let document = create_sample_document();
    let config = ExportConfig { format: ExportFormat::Csv, show_char_intervals: true, ..Default::default() };
    let result = export_document(&document, &config).unwrap();
    let lines: Vec<&str> = result.lines().collect();
    assert_eq!(lines[0], "extraction_class,extraction_text,description,start_char,end_char,alignment_status,group_index");
    assert_eq!(lines.len(), 4);
    assert!(lines[1].contains("person,John Smith"));
    assert!(lines[2].contains("company,TechCorp"));
    assert!(lines[3].contains("salary,\"$50,000\""));
    assert!(lines[1].contains("MatchExact"));
    assert!(lines[3].contains("MatchFuzzy"));
}

#[test]
fn test_csv_export_without_intervals() {
    let document = create_sample_document();
    let config = ExportConfig { format: ExportFormat::Csv, show_char_intervals: false, ..Default::default() };
    let result = export_document(&document, &config).unwrap();
    let lines: Vec<&str> = result.lines().collect();
    assert_eq!(lines[0], "extraction_class,extraction_text,description,group_index");
    assert!(!result.contains("start_char"));
    assert!(!result.contains("end_char"));
}

#[test]
fn test_csv_escape() {
    assert_eq!(csv_escape("simple"), "simple");
    assert_eq!(csv_escape("has,comma"), "\"has,comma\"");
    assert_eq!(csv_escape("has\"quote"), "\"has\"\"quote\"");
    assert_eq!(csv_escape("has\nnewline"), "\"has\nnewline\"");
    assert_eq!(csv_escape("has,comma\"and quote"), "\"has,comma\"\"and quote\"");
}

#[test]
fn test_html_escape() {
    assert_eq!(html_escape("simple"), "simple");
    assert_eq!(html_escape("has<tag>"), "has&lt;tag&gt;");
    assert_eq!(html_escape("has\"quote"), "has&quot;quote");
    assert_eq!(html_escape("has'apostrophe"), "has&#x27;apostrophe");
    assert_eq!(html_escape("has&ampersand"), "has&amp;ampersand");
}

#[test]
fn test_export_config_defaults() {
    let config = ExportConfig::default();
    assert_eq!(config.format, ExportFormat::Text);
    assert!(!config.show_char_intervals);
    assert!(config.include_text);
    assert!(config.highlight_extractions);
    assert!(config.include_statistics);
    assert!(config.custom_css.is_none());
    assert!(config.title.is_none());
}

#[test]
fn test_empty_document() {
    let document = AnnotatedDocument { document_id: Some("empty".to_string()), text: Some("".to_string()), extractions: None };
    let result = export_document(&document, &ExportConfig::default()).unwrap();
    assert!(result.contains("No extractions found"));
}

#[test]
fn test_document_without_text() {
    let document = AnnotatedDocument { document_id: Some("no_text".to_string()), text: None, extractions: None };
    let result = export_document(&document, &ExportConfig::default()).unwrap();
    assert!(result.contains("No text"));
}

#[test]
fn test_export_format_variants() {
    let document = create_sample_document();
    for format in [ExportFormat::Text, ExportFormat::Html, ExportFormat::Markdown, ExportFormat::Json, ExportFormat::Csv] {
        let config = ExportConfig { format, ..Default::default() };
        let result = export_document(&document, &config);
        assert!(result.is_ok(), "Format {:?} failed", format);
    }
}

#[test]
fn test_highlight_text_html() {
    let document = create_sample_document();
    let text = document.text.as_ref().unwrap();
    let result = highlight_text_html(text, &document).unwrap();
    assert!(result.contains("extraction-highlight"));
    assert!(result.contains("data-class=\"person\""));
    assert!(result.contains("data-text=\"John Smith\""));
    assert!(result.contains("John Smith"));
}

#[test]
fn test_count_extraction_classes() {
    let extractions = vec![
        Extraction::new("person".to_string(), "John".to_string()),
        Extraction::new("person".to_string(), "Jane".to_string()),
        Extraction::new("company".to_string(), "TechCorp".to_string()),
    ];
    let counts = count_extraction_classes(&extractions);
    let get = |c: &str| counts.iter().find(|(k, _)| k == c).map(|(_, n)| *n);
    assert_eq!(get("person"), Some(2));
    assert_eq!(get("company"), Some(1));
    assert_eq!(counts.len(), 2);
    assert_eq!(counts[0].0, "person");
}

#[test]
fn char_boundary_moves_back() {
    let text = "aé";
    assert_eq!(find_char_boundary(text, 2), 1);
    assert_eq!(find_char_boundary(text, 1), 1);
    assert_eq!(find_char_boundary(text, 10), 3);
}

fn pstep(id: &str, name: &str, deps: &[&str]) -> PipelineStep {
    PipelineStep {
        id: id.to_string(),
        name: name.to_string(),
        description: String::new(),
        examples: Vec::<ExampleData>::new(),
        prompt: String::new(),
        output_field: String::new(),
        filter: None,
        depends_on: deps.iter().map(|d| d.to_string()).collect(),
    }
}

fn result(id: &str, name: &str, extractions: Vec<Extraction>) -> StepResult {
    StepResult {
        step_id: id.to_string(),
        step_name: name.to_string(),
        extractions,
        processing_time_ms: 1,
        input_count: 1,
        success: true,
        error_message: None,
    }
}

fn at(class: &str, text: &str, start: Option<usize>, end: Option<usize>) -> Extraction {
    let mut e = Extraction::new(class.to_string(), text.to_string());
    if start.is_some() || end.is_some() {
        e.char_interval = Some(CharInterval::new(start, end));
    }
    e.attributes = Some(Vec::new());
    e
}

#[test]
fn test_export_pipeline_html_renders_layers() {
    let text = "The system shall process 100 transactions per second.";
    let steps = vec![pstep("s1", "Extract Requirements", &[]), pstep("s2", "Extract Values", &["s1"])];
    let hundred_idx = text.find("100").unwrap();
    let unit_idx = text.find("transactions per second").unwrap();
    let r1 = result("s1", "Extract Requirements", vec![at("requirement", text, Some(0), Some(text.len()))]);
    let r2 = result(
        "s2",
        "Extract Values",
        vec![
            at("value", "100", Some(hundred_idx), Some(hundred_idx + 3)),
            at("unit", "transactions per second", Some(unit_idx), Some(unit_idx + "transactions per second".len())),
        ],
    );
    let config = ExportConfig { format: ExportFormat::Html, ..Default::default() };
    let html = export_pipeline_html(&steps, &vec![r1, r2], text, &config).unwrap();
    assert!(html.contains("step-0"), "Should render step-0 (parent)");
    assert!(html.contains("step-1"), "Should render step-1 (child)");
    assert!(html.contains("100"));
    assert!(html.contains("transactions per second"));
}

#[test]
fn test_export_pipeline_html_exact_match_fallback() {
    let text = "System uptime must be 99.9% for availability.";
    let steps = vec![pstep("s1", "Req", &[]), pstep("s2", "Vals", &["s1"])];
    let r1 = result("s1", "Req", vec![at("requirement", text, None, None)]);
    let r2 = result("s2", "Vals", vec![at("uptime", "99.9%", None, None)]);
    let config = ExportConfig { format: ExportFormat::Html, ..Default::default() };
    let html = export_pipeline_html(&steps, &vec![r1, r2], text, &config).unwrap();
    assert!(html.contains("99.9%"), "Fallback should highlight exact match in original text");
}

#[test]
fn test_export_pipeline_html_overlap_rendering() {
    let text = "The system shall support 10 users concurrently.";
    let steps = vec![pstep("s1", "Req", &[]), pstep("s2", "Vals", &["s1"])];
    let ten_idx = text.find("10").unwrap();
    let users_idx = text.find("10 users").unwrap();
    let r1 = result("s1", "Req", vec![at("requirement", text, Some(0), Some(text.len()))]);
    let r2 = result(
        "s2",
        "Vals",
        vec![
            at("value", "10", Some(ten_idx), Some(ten_idx + 2)),
            at("phrase", "10 users", Some(users_idx), Some(users_idx + "10 users".len())),
        ],
    );
    let mut config = ExportConfig { format: ExportFormat::Html, ..Default::default() };
    config.allow_overlapping_highlights = true;
    let html = export_pipeline_html(&steps, &vec![r1, r2], text, &config).unwrap();
    assert!(html.contains("10"));
    assert!(html.contains("10 users"));
    assert!(html.contains("<div class=\"legend\">"));
}

#[test]
fn flattened_json_lists_each_extraction() {
    let text = "Uptime is 99.9% overall.";
    let steps = vec![pstep("s1", "Req", &[])];
    let nested = at("metrics", "{\"a\": \"99.9%\", \"b\": [\"overall\"]}", None, None);
    let r1 = result("s1", "Req", vec![at("uptime", "99.9%", None, None), nested]);
    let out = export_pipeline_flattened_json(&steps, &vec![r1], 7, text, true).unwrap();
    let parsed: serde_json::Value = serde_json::from_str(&out).unwrap();
    let items = parsed["extractions"].as_array().unwrap();
    assert_eq!(items[0]["extraction_text"], "99.9%");
    assert_eq!(items[0]["step_name"], "Req");
    assert_eq!(items[0]["char_interval"]["start_pos"], 10);
    assert_eq!(items.len(), 4);
    assert_eq!(items[2]["extraction_class"], "metrics:a");
    assert_eq!(items[3]["extraction_class"], "metrics:b:[0]");
    assert_eq!(parsed["metadata"]["total_time_ms"], 7);
    assert_eq!(parsed["metadata"]["steps"], 1);
}

#[test]
fn markdown_export_readiness() {
    let document = create_sample_document();
    let config = ExportConfig { format: ExportFormat::Markdown, ..Default::default() };
    assert!(langextract::visualization::markdown_exportable_now(&document, &config));
    let mut broken = create_sample_document();
    broken.text = Some("é and more".to_string());
    broken.extractions = Some(vec![ex("x", "é", 1, 2, AlignmentStatus::MatchExact, 0, None)]);
    assert!(!langextract::visualization::markdown_exportable_now(&broken, &config));
}

fn layer(start: usize, end: usize, class: &str, step: usize) -> LayeredSpan {
    LayeredSpan {
        start,
        end,
        class_name: class.to_string(),
        text: class.to_string(),
        step_index: step,
        parent_step_id: None,
        parent_class: None,
        parent_text: None,
    }
}

fn open_tag(class: &str, step: usize) -> String {
    format!(
        "<span class=\"extraction-highlight step-{}\" data-class=\"{}\" data-text=\"{}\" data-parent-class=\"\">",
        step, class, class
    )
}

fn shown_text(html: &str) -> String {
    let mut out = String::new();
    let mut in_tag = false;
    for c in html.chars() {
        if in_tag {
            if c == '>' {
                in_tag = false;
            }
        } else if c == '<' {
            in_tag = true;
        } else {
            out.push(c);
        }
    }
    out.replace("&lt;", "<").replace("&gt;", ">").replace("&quot;", "\"").replace("&#x27;", "'").replace("&amp;", "&")
}

#[test]
fn layered_highlight_writes_text_once() {
    let html = highlight_text_html_with_layers("ab", &vec![layer(1, 2, "c", 0)], true).unwrap();
    assert_eq!(html, format!("a{}b</span>", open_tag("c", 0)));
    assert_eq!(shown_text(&html), "ab");
}

#[test]
fn layered_highlight_nests_and_reopens() {
    let nested = highlight_text_html_with_layers("abc", &vec![layer(0, 3, "x", 0), layer(1, 2, "y", 1)], true).unwrap();
    assert_eq!(nested, format!("{}a{}b</span>c</span>", open_tag("x", 0), open_tag("y", 1)));
    let crossing = highlight_text_html_with_layers("abc", &vec![layer(0, 2, "x", 0), layer(1, 3, "y", 1)], true).unwrap();
    assert_eq!(
        crossing,
        format!("{}a{}b</span></span>{}c</span>", open_tag("x", 0), open_tag("y", 1), open_tag("y", 1))
    );
    assert_eq!(shown_text(&crossing), "abc");
    assert_eq!(crossing.matches("<span").count(), crossing.matches("</span>").count());
}

#[test]
fn layered_highlight_escapes_text() {
    let text = "a<b & \"c\"";
    let html = highlight_text_html_with_layers(text, &vec![layer(0, 3, "x", 2), layer(2, 5, "y", 0)], true).unwrap();
    assert_eq!(shown_text(&html), text);
    let flat = highlight_text_html_with_layers(text, &vec![layer(0, 3, "x", 2), layer(2, 5, "y", 0)], false).unwrap();
    assert_eq!(shown_text(&flat), text);
    assert_eq!(flat, format!("{}a&lt;b</span> &amp; &quot;c&quot;", open_tag("x", 2)));
}

#[test]
fn highlight_skips_span_inside_a_character_without_repeating_text() {
    let text = "a\u{20AC} b";
    let doc = AnnotatedDocument {
        document_id: None,
        text: Some(text.to_string()),
        extractions: Some(vec![
            ex("inside", "x", 2, 3, AlignmentStatus::MatchExact, 0, None),
            ex("word", "b", 5, 6, AlignmentStatus::MatchExact, 1, None),
        ]),
    };
    let html = highlight_text_html(text, &doc).unwrap();
    assert_eq!(shown_text(&html), text);
    assert_eq!(html, "a\u{20AC} <span class=\"extraction-highlight\" data-class=\"word\" data-text=\"b\">b</span>");
}

#[test]
fn layered_flat_skips_span_inside_a_character() {
    let text = "a\u{20AC} b";
    let flat = highlight_text_html_with_layers(text, &vec![layer(2, 3, "x", 0), layer(5, 6, "y", 1)], false).unwrap();
    assert_eq!(flat, format!("a\u{20AC} {}b</span>", open_tag("y", 1)));
    let layered = highlight_text_html_with_layers(text, &vec![layer(2, 3, "x", 0)], true).unwrap();
    assert_eq!(shown_text(&layered), text);
}
