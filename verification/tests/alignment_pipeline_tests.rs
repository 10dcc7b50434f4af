use langextract::alignment::{find_exact_match, get_alignment_stats, split_words};
use langextract::data::{AlignmentStatus, CharInterval, ExampleData, Extraction};
use langextract::exceptions::LangExtractError;
use langextract::pipeline::{
    apply_filter, build_nested_output, find_pipeline_step, place_step_extraction, prepare_step_input,
    requirements_pipeline_steps, resolve_execution_order, resolve_execution_waves, step_failed_error, check_step_result, step_result, PipelineFilter,
    PipelineStep, StepInputItem, StepResult,
};

#[test]
fn test_exact_alignment() {
    let r = find_exact_match("john doe", "hello, john doe is a software engineer.", true);
    assert_eq!(r, Some((7, 15, AlignmentStatus::MatchExact)));
}

#[test]
fn lesser_alignment_spans_first_to_last_word() {
    let r = find_exact_match("john the smith", "john a smith", true);
    assert_eq!(r, Some((0, 12, AlignmentStatus::MatchLesser)));
    assert_eq!(find_exact_match("john the smith", "john a smith", false), None);
}

#[test]
fn test_no_alignment() {
    assert_eq!(find_exact_match("jane doe", "hello, john smith is a software engineer.", true), None);
}

#[test]
fn words_split_on_whitespace() {
    assert_eq!(split_words("  a bc\t d \n"), vec!["a", "bc", "d"]);
    assert!(split_words("   ").is_empty());
}

#[test]
fn test_alignment_stats() {
    let mut a = Extraction::new("test".to_string(), "test".to_string());
    a.alignment_status = Some(AlignmentStatus::MatchExact);
    let mut b = Extraction::new("test".to_string(), "test".to_string());
    b.alignment_status = Some(AlignmentStatus::MatchFuzzy);
    let c = Extraction::new("test".to_string(), "test".to_string());
    let stats = get_alignment_stats(&[a, b, c]);
    assert_eq!(stats.total, 3);
    assert_eq!(stats.exact, 1);
    assert_eq!(stats.fuzzy, 1);
    assert_eq!(stats.unaligned, 1);
    assert_eq!((stats.total - stats.unaligned) as f32 / stats.total as f32, 2.0 / 3.0);
    assert_eq!(stats.exact as f32 / stats.total as f32, 1.0 / 3.0);
}

fn step(id: &str, deps: &[&str]) -> PipelineStep {
    PipelineStep {
        id: id.to_string(),
        name: id.to_string(),
        description: String::new(),
        examples: Vec::<ExampleData>::new(),
        prompt: String::new(),
        output_field: id.to_string(),
        filter: None,
        depends_on: deps.iter().map(|d| d.to_string()).collect(),
    }
}

#[test]
fn test_dependency_resolution() {
    let steps = requirements_pipeline_steps();
    let order = resolve_execution_order(&steps).unwrap();
    assert_eq!(order[0], "extract_requirements");
    assert_eq!(order.len(), 3);
}

#[test]
fn execution_order_puts_dependencies_first() {
    let steps = vec![step("c", &["b"]), step("b", &["a"]), step("a", &[])];
    let order = resolve_execution_order(&steps).unwrap();
    assert_eq!(order, vec!["a", "b", "c"]);
}

#[test]
fn execution_order_refuses_cycle() {
    let steps = vec![step("a", &["b"]), step("b", &["a"])];
    match resolve_execution_order(&steps) {
        Err(LangExtractError::ConfigurationError(m)) => {
            assert!(m.starts_with("Circular dependency detected involving step: "));
        }
        other => panic!("expected a configuration error, got {:?}", other),
    }
}

#[test]
fn waves_group_independent_steps() {
    let steps = requirements_pipeline_steps();
    let waves = resolve_execution_waves(&steps).unwrap();
    assert_eq!(waves, vec![vec!["extract_requirements".to_string()], vec!["extract_values".to_string(), "extract_specifications".to_string()]]);
}

#[test]
fn waves_refuse_unknown_dependency() {
    let steps = vec![step("a", &["missing"])];
    match resolve_execution_waves(&steps) {
        Err(LangExtractError::ConfigurationError(m)) => {
            assert_eq!(m, "Unable to resolve execution waves - possible circular dependency");
        }
        other => panic!("expected an error, got {:?}", other),
    }
}

#[test]
fn test_filter_application() {
    let extractions = vec![
        Extraction::new("requirement".to_string(), "Test requirement".to_string()),
        Extraction::new("other".to_string(), "Other text".to_string()),
    ];
    let filter = PipelineFilter { class_filter: Some("requirement".to_string()), text_pattern: None, max_items: None };
    let filtered = apply_filter(&extractions, &Some(filter));
    assert_eq!(filtered.len(), 1);
    assert_eq!(filtered[0].extraction_class, "requirement");
}

#[test]
fn filter_by_pattern_and_count() {
    let extractions = vec![
        Extraction::new("v".to_string(), "100".to_string()),
        Extraction::new("v".to_string(), "abc".to_string()),
        Extraction::new("v".to_string(), "7".to_string()),
        Extraction::new("v".to_string(), "42".to_string()),
    ];
    let filter = PipelineFilter { class_filter: None, text_pattern: Some("^[0-9]+$".to_string()), max_items: Some(2) };
    let filtered = apply_filter(&extractions, &Some(filter));
    let texts: Vec<&str> = filtered.iter().map(|e| e.extraction_text.as_str()).collect();
    assert_eq!(texts, vec!["100", "7"]);
    let bad = PipelineFilter { class_filter: None, text_pattern: Some("(".to_string()), max_items: None };
    assert_eq!(apply_filter(&extractions, &Some(bad)).len(), 4);
}

#[test]
fn step_input_for_first_and_dependent_steps() {
    let steps = requirements_pipeline_steps();
    let first = prepare_step_input(&steps[0], "Whole text.", &Vec::new()).unwrap();
    assert_eq!(first.len(), 1);
    assert_eq!(first[0].text, "Whole text.");
    assert_eq!(first[0].parent_start, Some(0));
    assert_eq!(first[0].parent_end, Some(11));

    let mut req = Extraction::new("requirement".to_string(), "R1".to_string());
    req.char_interval = Some(CharInterval::new(Some(3), Some(5)));
    let other = Extraction::new("note".to_string(), "N".to_string());
    let context = vec![("extract_requirements".to_string(), vec![req, other])];
    let items = prepare_step_input(&steps[1], "Whole text.", &context).unwrap();
    assert_eq!(items.len(), 1);
    assert_eq!(items[0].text, "R1");
    assert_eq!(items[0].parent_start, Some(3));
    assert_eq!(items[0].parent_end, Some(5));
    assert_eq!(items[0].parent_step_id.as_deref(), Some("extract_requirements"));
    assert_eq!(items[0].parent_class.as_deref(), Some("requirement"));
}

#[test]
fn placed_extraction_gets_absolute_position_and_links() {
    let item = StepInputItem {
        text: "process 100 items".to_string(),
        parent_start: Some(10),
        parent_end: Some(27),
        parent_step_id: Some("s1".to_string()),
        parent_class: Some("requirement".to_string()),
        parent_text: Some("process 100 items".to_string()),
    };
    let mut own = Extraction::new("value".to_string(), "100".to_string());
    own.char_interval = Some(CharInterval::new(Some(8), Some(11)));
    let placed = place_step_extraction(true, &item, own);
    assert_eq!(placed.char_interval, Some(CharInterval::new(Some(18), Some(21))));
    assert_eq!(placed.get_attribute("parent_step_id"), Some(&serde_json::Value::from("s1")));
    assert_eq!(placed.get_attribute("parent_start"), Some(&serde_json::Value::from(10u64)));

    let found = place_step_extraction(true, &item, Extraction::new("unit".to_string(), "items".to_string()));
    assert_eq!(found.char_interval, Some(CharInterval::new(Some(22), Some(27))));

    let untouched = place_step_extraction(false, &item, Extraction::new("unit".to_string(), "items".to_string()));
    assert!(untouched.char_interval.is_none());
    assert!(untouched.attributes.is_none());
}

#[test]
fn step_errors() {
    match step_failed_error("s1", &None) {
        LangExtractError::ConfigurationError(m) => assert_eq!(m, "Step 's1' failed: Unknown error"),
        _ => panic!(),
    }
    let steps = requirements_pipeline_steps();
    assert_eq!(find_pipeline_step(&steps, "extract_values").unwrap(), 1);
    match find_pipeline_step(&steps, "nope") {
        Err(LangExtractError::ConfigurationError(m)) => assert_eq!(m, "Step 'nope' not found"),
        _ => panic!(),
    }
}

#[test]
fn nested_output_has_successful_steps() {
    let mut e = Extraction::new("value".to_string(), "100".to_string());
    e.char_interval = Some(CharInterval::new(Some(1), None));
    let ok = StepResult {
        step_id: "s1".to_string(),
        step_name: "S1".to_string(),
        extractions: vec![e],
        processing_time_ms: 5,
        input_count: 1,
        success: true,
        error_message: None,
    };
    let failed = StepResult {
        step_id: "s2".to_string(),
        step_name: "S2".to_string(),
        extractions: vec![],
        processing_time_ms: 1,
        input_count: 1,
        success: false,
        error_message: Some("x".to_string()),
    };
    let out = build_nested_output(&vec![ok, failed]).unwrap();
    assert_eq!(out["s1"]["count"], serde_json::Value::from(1));
    assert_eq!(out["s1"]["processing_time_ms"], serde_json::Value::from(5));
    assert_eq!(out["s1"]["extractions"][0]["class"], serde_json::Value::from("value"));
    assert_eq!(out["s1"]["extractions"][0]["start"], serde_json::Value::from(1));
    assert!(out["s1"]["extractions"][0]["end"].is_null());
    assert!(out.get("s2").is_none());
}

#[test]
fn batches_of_chunks() {
    let plan = langextract::annotation::batch_plan(7, 3, 2);
    assert_eq!(plan.len(), 3);
    assert_eq!((plan[0].start, plan[0].end, plan[0].run_end), (0, 3, 2));
    assert_eq!((plan[2].start, plan[2].end, plan[2].run_end), (6, 7, 7));
    assert!(plan.iter().all(|b| b.total_batches == 3));
    assert_eq!(plan[1].batch_number, 2);
    assert!(langextract::annotation::batch_plan(0, 4, 4).is_empty());
}

#[test]
fn examples_are_required() {
    match langextract::annotation::require_examples(&[]) {
        Err(LangExtractError::InvalidInput(m)) => assert!(m.starts_with("Examples are required")),
        other => panic!("unexpected {:?}", other),
    }
    let one = vec![ExampleData::new("t".to_string(), vec![])];
    assert!(langextract::annotation::require_examples(&one).is_ok());
}

#[test]
fn refinement_context_groups_by_class() {
    let previous = vec![
        Extraction::new("person".to_string(), "Ann".to_string()),
        Extraction::new("city".to_string(), "Oslo".to_string()),
        Extraction::new("person".to_string(), "Bo".to_string()),
    ];
    let ctx = langextract::annotation::build_refinement_context(Some("Base."), &previous);
    assert!(ctx.starts_with("Base.\n\nPrevious extractions found:\n- person: Ann, Bo\n- city: Oslo\n\nPlease look"));
    assert_eq!(langextract::annotation::build_refinement_context(None, &[]), "");
}

#[test]
fn keyed_sort_is_stable() {
    let v = vec![(2, 0, 0, 0), (1, 5, 0, 1), (2, 0, 0, 2), (1, 2, 0, 3)];
    let sorted = langextract::layers::sort_keyed(&v);
    assert_eq!(sorted, vec![(1, 2, 0, 3), (1, 5, 0, 1), (2, 0, 0, 0), (2, 0, 0, 2)]);
}

#[test]
fn expected_fields_are_distinct_classes() {
    let examples = vec![
        ExampleData::new("a".to_string(), vec![Extraction::new("person".to_string(), "A".to_string()), Extraction::new("age".to_string(), "1".to_string())]),
        ExampleData::new("b".to_string(), vec![Extraction::new("person".to_string(), "B".to_string()), Extraction::new("city".to_string(), "C".to_string())]),
    ];
    assert_eq!(langextract::annotation::expected_fields(&examples), vec!["person", "age", "city"]);
}

#[test]
fn step_results_and_the_stop_decision() {
    let steps = requirements_pipeline_steps();
    let ok = step_result(&steps[0], vec![Extraction::new("requirement".to_string(), "x".to_string())], 2, 7, None);
    assert!(ok.success);
    assert_eq!(ok.step_id, "extract_requirements");
    assert_eq!(ok.extractions.len(), 1);
    assert!(check_step_result("extract_requirements", &ok).is_ok());
    let failed = step_result(&steps[1], vec![Extraction::new("v".to_string(), "y".to_string())], 3, 9, Some("boom".to_string()));
    assert!(!failed.success);
    assert!(failed.extractions.is_empty());
    assert_eq!(failed.input_count, 3);
    match check_step_result("extract_values", &failed) {
        Err(LangExtractError::ConfigurationError(m)) => assert_eq!(m, "Step 'extract_values' failed: boom"),
        _ => panic!("expected a configuration error"),
    }
}

#[test]
fn requirements_steps_hold_their_prompts_and_examples() {
    let steps = requirements_pipeline_steps();
    assert_eq!(steps[1].prompt, "From this requirement, extract all numeric values and their associated units or specifications.");
    assert_eq!(steps[2].description, "Extract detailed specifications and constraints from requirements");
    let ex = &steps[1].examples[0];
    assert_eq!(ex.extractions.len(), 4);
    assert_eq!(ex.extractions[3].extraction_class, "unit");
    assert_eq!(ex.extractions[3].extraction_text, "%");
}

#[test]
fn word_windows_for_fuzzy_alignment() {
    let words: Vec<String> = vec!["The".to_string(), "système".to_string(), "runs".to_string()];
    let window: Vec<String> = vec!["the".to_string(), "RUNS".to_string()];
    assert_eq!(langextract::alignment::covered_word_count(&words, &window), 2);
    assert_eq!(langextract::alignment::word_span_offsets(&words, 1, 2, 20), Some((4, 12)));
    assert_eq!(langextract::alignment::word_span_offsets(&words, 0, 3, 20), Some((0, 20)));
}
