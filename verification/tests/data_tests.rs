use langextract::data::{AnnotatedDocument, CharInterval, Document, ExampleData, Extraction, FormatType};

#[test]
fn test_char_interval_overlap() {
    let interval1 = CharInterval::new(Some(0), Some(5));
    let interval2 = CharInterval::new(Some(3), Some(8));
    let interval3 = CharInterval::new(Some(10), Some(15));

    assert!(interval1.overlaps_with(&interval2));
    assert!(interval2.overlaps_with(&interval1));
    assert!(!interval1.overlaps_with(&interval3));
    assert!(!interval3.overlaps_with(&interval1));
}

#[test]
fn test_char_interval_length() {
    let interval = CharInterval::new(Some(5), Some(10));
    assert_eq!(interval.length(), Some(5));

    let interval_none = CharInterval::new(None, Some(10));
    assert_eq!(interval_none.length(), None);
}

#[test]
fn test_extraction_creation() {
    let extraction = Extraction::new("person".to_string(), "John Doe".to_string());
    assert_eq!(extraction.extraction_class, "person");
    assert_eq!(extraction.extraction_text, "John Doe");
    assert!(extraction.char_interval.is_none());
}

#[test]
fn test_extraction_attributes() {
    let mut extraction = Extraction::new("person".to_string(), "John Doe".to_string());
    extraction.set_attribute("age".to_string(), serde_json::Value::from(30));
    extraction.set_attribute("city".to_string(), serde_json::Value::from("New York"));

    assert_eq!(extraction.get_attribute("age"), Some(&serde_json::Value::from(30)));
    assert_eq!(extraction.get_attribute("city"), Some(&serde_json::Value::from("New York")));
    assert_eq!(extraction.get_attribute("nonexistent"), None);
}

#[test]
fn set_attribute_replaces_earlier_value() {
    let mut extraction = Extraction::new("person".to_string(), "John Doe".to_string());
    extraction.set_attribute("age".to_string(), serde_json::Value::from(30));
    extraction.set_attribute("age".to_string(), serde_json::Value::from(31));
    assert_eq!(extraction.get_attribute("age"), Some(&serde_json::Value::from(31)));
    assert_eq!(extraction.attributes.as_ref().unwrap().len(), 1);
}

#[test]
fn test_extraction_overlap() {
    let mut extraction1 = Extraction::new("person".to_string(), "John".to_string());
    extraction1.set_char_interval(CharInterval::new(Some(0), Some(4)));

    let mut extraction2 = Extraction::new("name".to_string(), "John Doe".to_string());
    extraction2.set_char_interval(CharInterval::new(Some(2), Some(8)));

    let mut extraction3 = Extraction::new("city".to_string(), "Boston".to_string());
    extraction3.set_char_interval(CharInterval::new(Some(10), Some(16)));

    assert!(extraction1.overlaps_with(&extraction2));
    assert!(!extraction1.overlaps_with(&extraction3));
}

#[test]
fn test_document_id_generation() {
    let mut doc = Document::new("Test text".to_string());
    let id1 = doc.get_document_id();
    let id2 = doc.get_document_id();

    assert_eq!(id1, id2);
    assert!(id1.starts_with("doc_"));
    assert_eq!(id1.len(), 12);
}

#[test]
fn test_annotated_document_operations() {
    let mut doc = AnnotatedDocument::new();
    assert_eq!(doc.extraction_count(), 0);

    let extraction1 = Extraction::new("person".to_string(), "Alice".to_string());
    let extraction2 = Extraction::new("person".to_string(), "Bob".to_string());
    let extraction3 = Extraction::new("location".to_string(), "Paris".to_string());

    doc.add_extraction(extraction1);
    doc.add_extraction(extraction2);
    doc.add_extraction(extraction3);

    assert_eq!(doc.extraction_count(), 3);

    let person_extractions = doc.extractions_by_class("person");
    assert_eq!(person_extractions.len(), 2);

    let location_extractions = doc.extractions_by_class("location");
    assert_eq!(location_extractions.len(), 1);
}

#[test]
fn test_format_type_conversion() {
    assert_eq!("json".parse::<FormatType>().unwrap(), FormatType::Json);
    assert_eq!("yaml".parse::<FormatType>().unwrap(), FormatType::Yaml);
    assert_eq!("JSON".parse::<FormatType>().unwrap(), FormatType::Json);

    assert!(matches!("xml".parse::<FormatType>(), Err(_)));

    assert_eq!(FormatType::Json.to_string(), "json");
    assert_eq!(FormatType::Yaml.to_string(), "yaml");
}

#[test]
fn test_example_data() {
    let mut example = ExampleData::with_text("John is 30 years old".to_string());
    assert_eq!(example.extractions.len(), 0);

    example.add_extraction(Extraction::new("person".to_string(), "John".to_string()));
    example.add_extraction(Extraction::new("age".to_string(), "30".to_string()));

    assert_eq!(example.extractions.len(), 2);
}

#[test]
fn dedupe_keeps_last_value_of_each_key() {
    let mut ex = Extraction::new("c".to_string(), "t".to_string());
    ex.attributes = Some(vec![
        ("a".to_string(), serde_json::Value::from(1)),
        ("b".to_string(), serde_json::Value::from(2)),
        ("a".to_string(), serde_json::Value::from(3)),
    ]);
    let d = langextract::data::dedupe_attributes(ex);
    let attrs = d.attributes.unwrap();
    assert_eq!(attrs.len(), 2);
    assert_eq!(attrs[0], ("a".to_string(), serde_json::Value::from(3)));
    assert_eq!(attrs[1], ("b".to_string(), serde_json::Value::from(2)));
    assert_eq!(d.extraction_class, "c");
    let plain = langextract::data::dedupe_attributes(Extraction::new("x".to_string(), "y".to_string()));
    assert!(plain.attributes.is_none());
}

#[test]
fn dedupe_by_text_keeps_first_of_each_text() {
    let es = vec![
        Extraction::new("a".to_string(), " Foo ".to_string()),
        Extraction::new("b".to_string(), "foo".to_string()),
        Extraction::new("c".to_string(), "Bar".to_string()),
        Extraction::new("d".to_string(), "BAR\n".to_string()),
    ];
    let (kept, dropped) = langextract::data::dedupe_by_text(es);
    assert_eq!(dropped, 2);
    assert_eq!(kept.len(), 2);
    assert_eq!(kept[0].extraction_class, "a");
    assert_eq!(kept[1].extraction_class, "c");
}
