use langextract::coercion::{coercion_step, try_coerce_boolean, try_coerce_date, try_coerce_email, try_coerce_integer, try_coerce_phone, try_coerce_url, CoercionStage, CoercionStep};
use langextract::resolver::CoercionTargetType;

#[test]
fn integer_coercion_reads_whole_numbers() {
    let d = try_coerce_integer("age", "25").unwrap();
    assert!(d.success);
    assert_eq!(d.target_type, CoercionTargetType::Integer);
    assert_eq!(d.coerced_value.as_ref().unwrap().as_i64(), Some(25));
    assert!(try_coerce_integer("age", "25.5").is_none());
    let big = try_coerce_integer("n", "99999999999999999999").unwrap();
    assert!(!big.success);
    assert!(big.error_message.unwrap().starts_with("Integer parse error: "));
}

#[test]
fn boolean_coercion_reads_keywords() {
    let yes = try_coerce_boolean("active", "Yes").unwrap();
    assert_eq!(yes.coerced_value.unwrap().as_bool(), Some(true));
    let off = try_coerce_boolean("active", "OFF").unwrap();
    assert_eq!(off.coerced_value.unwrap().as_bool(), Some(false));
    assert!(try_coerce_boolean("active", "maybe").is_none());
}

#[test]
fn tagged_coercions() {
    let e = try_coerce_email("contact", "john@example.com").unwrap();
    assert_eq!(e.target_type, CoercionTargetType::Email);
    assert_eq!(e.coerced_value.as_ref().unwrap()["email"], "john@example.com");
    assert_eq!(e.coerced_value.as_ref().unwrap()["type"], "email");
    assert!(try_coerce_email("contact", "not an email").is_none());
    assert_eq!(try_coerce_date("d", "2024-01-15").unwrap().coerced_value.unwrap()["date"], "2024-01-15");
    assert_eq!(try_coerce_url("u", "https://example.com/x").unwrap().coerced_value.unwrap()["url"], "https://example.com/x");
    assert!(try_coerce_url("u", "example.com").is_none());
}

#[test]
fn phone_coercion_formats_number() {
    let p = try_coerce_phone("phone", "617-555-1234").unwrap();
    let v = p.coerced_value.unwrap();
    assert_eq!(v["phone"], "(617) 555-1234");
    assert_eq!(v["area_code"], "617");
    assert_eq!(p.original_value, "617-555-1234");
    assert!(try_coerce_phone("phone", "12345").is_none());
}

#[test]
fn integer_coercion_signs_and_range() {
    let neg = try_coerce_integer("n", "-42").unwrap();
    assert_eq!(neg.coerced_value, Some(serde_json::Value::from(-42i64)));
    let plus = try_coerce_integer("n", "+7").unwrap();
    assert_eq!(plus.coerced_value, Some(serde_json::Value::from(7i64)));
    let big = try_coerce_integer("n", "99999999999999999999").unwrap();
    assert!(big.coerced_value.is_none());
    assert!(!big.success);
    assert!(big.error_message.unwrap().starts_with("Integer parse error: "));
}

#[test]
fn coercion_step_orders_the_coercions() {
    match coercion_step("f", "50%", "50%", CoercionStage::Percentage) {
        CoercionStep::ReadPercentage(n, next) => {
            assert_eq!(n, "50");
            assert_eq!(next, CoercionStage::Email);
        }
        other => panic!("unexpected {:?}", other),
    }
    match coercion_step("f", "$1,500 million", "$1,500 million", CoercionStage::Percentage) {
        CoercionStep::ReadCurrency(a, scale, next) => {
            assert_eq!(a, "1500");
            assert_eq!(scale, 1_000_000);
            assert_eq!(next, CoercionStage::Boolean);
        }
        other => panic!("unexpected {:?}", other),
    }
    match coercion_step("f", "3.14", "3.14", CoercionStage::Percentage) {
        CoercionStep::ReadFloat => {}
        other => panic!("unexpected {:?}", other),
    }
    match coercion_step("f", "a@b.com", "a@b.com", CoercionStage::Percentage) {
        CoercionStep::Done(d) => assert_eq!(d.target_type, CoercionTargetType::Email),
        other => panic!("unexpected {:?}", other),
    }
    match coercion_step("f", "yes", "yes", CoercionStage::Percentage) {
        CoercionStep::Done(d) => assert_eq!(d.coerced_value, Some(serde_json::Value::Bool(true))),
        other => panic!("unexpected {:?}", other),
    }
    match coercion_step("f", "42", "42", CoercionStage::Percentage) {
        CoercionStep::Done(d) => assert_eq!(d.coerced_value, Some(serde_json::Value::from(42i64))),
        other => panic!("unexpected {:?}", other),
    }
    match coercion_step("f", "hello", " hello ", CoercionStage::Percentage) {
        CoercionStep::Done(d) => {
            assert!(!d.success);
            assert_eq!(d.original_value, " hello ");
            assert_eq!(d.error_message, Some("No applicable coercion found".to_string()));
        }
        other => panic!("unexpected {:?}", other),
    }
}
