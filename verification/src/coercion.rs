//! Reading extraction texts as typed values: whole numbers, truth values,
//! email addresses, phone numbers, dates and web addresses.

use vstd::prelude::*;
use serde_json::Value;
use crate::text::{push_str, push_char, chars_of};
use crate::data::strings_equal;
use crate::resolver::{CoercionDetail, CoercionTargetType};
use crate::patterns::{opt_text, regex_matches, regex_outcome, regex_groups, regex_match_groups};
use crate::providers::{to_lowercase, lowercase};
use crate::schema::{json_string, json_string_value};
use crate::json::{json_bool, json_bool_value, json_object, json_object_value, entries_view};
use crate::templates::{find_chars, find_chars_from};

verus! {

/// The pattern of whole numbers.
pub const INTEGER_PATTERN: &'static str = "^[+-]?\\d+$";

/// The pattern of email addresses.
pub const EMAIL_PATTERN: &'static str = "^[a-zA-Z0-9._%+-]+@[a-zA-Z0-9.-]+\\.[a-zA-Z]{2,}$";

/// The pattern of phone numbers: area code, exchange and number.
pub const PHONE_PATTERN: &'static str = "^\\(?([0-9]{3})\\)?[-. ]?([0-9]{3})[-. ]?([0-9]{4})$";

/// The pattern of dates.
pub const DATE_PATTERN: &'static str = "^\\d{4}-\\d{2}-\\d{2}|\\d{1,2}\\/\\d{1,2}\\/\\d{4}|\\w+ \\d{1,2}, \\d{4}$";

/// The pattern of web addresses.
pub const URL_PATTERN: &'static str = "^https?://[^\\s/$.?#].[^\\s]*$";

/// The coercion outcome `d` is for `field` with text `value`, aims at
/// `target`, holds `coerced`, and succeeded exactly when there is no
/// error.
pub open spec fn is_detail(
    d: CoercionDetail,
    field: Seq<char>,
    value: Seq<char>,
    coerced: Option<Value>,
    target: CoercionTargetType,
    error: Option<Seq<char>>,
) -> bool {
    &&& d.field_name@ == field
    &&& d.original_value@ == value
    &&& d.coerced_value == coerced
    &&& d.target_type == target
    &&& d.success == (error is None)
    &&& opt_text(d.error_message) == error
}

fn make_detail(field: &str, value: &str, coerced: Option<Value>, target: CoercionTargetType, error: Option<String>) -> (d: CoercionDetail)
    ensures
        is_detail(d, field@, value@, coerced, target, opt_text(error)),
{
    let success = error.is_none();
    CoercionDetail {
        field_name: field.to_string(),
        original_value: value.to_string(),
        coerced_value: coerced,
        target_type: target,
        success,
        error_message: error,
    }
}

/// The whole number a text spells, or the parse error's message.
pub uninterp spec fn i64_parse(text: Seq<char>) -> Result<i64, Seq<char>>;

/// The digits of a whole number's text: what follows a leading `+` or `-`.
pub open spec fn integer_digits(t: Seq<char>) -> Seq<char> {
    if t.len() > 0 && (t[0] == '+' || t[0] == '-') {
        t.drop_first()
    } else {
        t
    }
}

/// The text is an optional `+` or `-` followed by one or more ASCII digits.
pub open spec fn plain_integer(t: Seq<char>) -> bool {
    let d = integer_digits(t);
    d.len() > 0 && forall|i: int| 0 <= i < d.len() ==> '0' <= #[trigger] d[i] <= '9'
}

/// The number that decimal digits spell.
pub open spec fn digits_value(d: Seq<char>) -> int
    decreases d.len(),
{
    if d.len() == 0 {
        0
    } else {
        digits_value(d.drop_last()) * 10 + (d.last() as int - '0' as int)
    }
}

/// The number a whole number's text spells, its sign included.
pub open spec fn integer_value(t: Seq<char>) -> int {
    if t.len() > 0 && t[0] == '-' {
        -digits_value(integer_digits(t))
    } else {
        digits_value(integer_digits(t))
    }
}

/// std's `str::parse::<i64>`, the error rendered by `to_string`. Stated:
/// the outcome is [`i64_parse`] of the text; as std documents, the text is
/// read exactly when it is an optional sign followed by digits and the
/// number fits an `i64`, and then the number is the one it spells. Which
/// error message comes for a text that is not read is left to the name.
#[verifier::external_body]
fn parse_i64(text: &str) -> (r: Result<i64, String>)
    ensures
        i64_parse(text@) == match r {
            Ok(n) => Ok::<i64, Seq<char>>(n),
            Err(m) => Err::<i64, Seq<char>>(m@),
        },
        r is Ok <==> (plain_integer(text@) && i64::MIN <= integer_value(text@) <= i64::MAX),
        r matches Ok(n) ==> n == integer_value(text@),
{
    text.parse::<i64>().map_err(|e| e.to_string())
}

/// The JSON number of a whole number.
pub uninterp spec fn json_i64_value(n: i64) -> Value;

/// `serde_json::Value::from` on an `i64`. Stated: the value is
/// [`json_i64_value`] of the number.
#[verifier::external_body]
fn json_i64(n: i64) -> (v: Value)
    ensures
        v == json_i64_value(n),
{
    Value::from(n)
}

/// A whole number: a text that the integer pattern matches is read as an
/// `i64`, or fails with the parse error.
pub open spec fn integer_coercion(field: Seq<char>, value: Seq<char>, d: Option<CoercionDetail>) -> bool {
    if regex_outcome(INTEGER_PATTERN@, value) == Some(true) {
        d matches Some(x) && match i64_parse(value) {
            Ok(n) => is_detail(x, field, value, Some(json_i64_value(n)), CoercionTargetType::Integer, None),
            Err(m) => is_detail(x, field, value, None, CoercionTargetType::Integer, Some("Integer parse error: "@ + m)),
        }
    } else {
        d is None
    }
}

/// Reads a text as a whole number; see [`integer_coercion`]. A text the
/// pattern matches gets a value exactly when it is an optional sign and
/// digits spelling a number that fits an `i64`, and the value is that number.
pub fn try_coerce_integer(field_name: &str, value: &str) -> (r: Option<CoercionDetail>)
    ensures
        integer_coercion(field_name@, value@, r),
        r matches Some(x) ==> (x.coerced_value is Some <==> (plain_integer(value@) && i64::MIN <= integer_value(value@)
            <= i64::MAX)),
        r matches Some(x) ==> (x.coerced_value is Some ==> x.coerced_value == Some(
            json_i64_value(integer_value(value@) as i64),
        )),
{
    match regex_matches(INTEGER_PATTERN, value) {
        Some(true) => match parse_i64(value) {
            Ok(n) => Some(make_detail(field_name, value, Some(json_i64(n)), CoercionTargetType::Integer, None)),
            Err(m) => {
                let mut e = String::new();
                push_str(&mut e, "Integer parse error: ");
                push_str(&mut e, m.as_str());
                Some(make_detail(field_name, value, None, CoercionTargetType::Integer, Some(e)))
            },
        },
        _ => None,
    }
}

/// The words read as true.
pub open spec fn true_word(s: Seq<char>) -> bool {
    s == "true"@ || s == "yes"@ || s == "y"@ || s == "1"@ || s == "on"@ || s == "enabled"@
}

/// The words read as false.
pub open spec fn false_word(s: Seq<char>) -> bool {
    s == "false"@ || s == "no"@ || s == "n"@ || s == "0"@ || s == "off"@ || s == "disabled"@
}

/// A truth value: the lowercased text is one of the true or false words.
pub open spec fn boolean_coercion(field: Seq<char>, value: Seq<char>, d: Option<CoercionDetail>) -> bool {
    if true_word(lowercase(value)) {
        d matches Some(x) && is_detail(x, field, value, Some(json_bool_value(true)), CoercionTargetType::Boolean, None)
    } else if false_word(lowercase(value)) {
        d matches Some(x) && is_detail(x, field, value, Some(json_bool_value(false)), CoercionTargetType::Boolean, None)
    } else {
        d is None
    }
}

fn one_of(s: &str, words: &[&str; 6]) -> (r: bool)
    ensures
        r == (s@ == words[0]@ || s@ == words[1]@ || s@ == words[2]@ || s@ == words[3]@ || s@ == words[4]@ || s@ == words[5]@),
{
    strings_equal(s, words[0]) || strings_equal(s, words[1]) || strings_equal(s, words[2]) || strings_equal(s, words[3])
        || strings_equal(s, words[4]) || strings_equal(s, words[5])
}

/// Reads a text as a truth value; see [`boolean_coercion`].
pub fn try_coerce_boolean(field_name: &str, value: &str) -> (r: Option<CoercionDetail>)
    ensures
        boolean_coercion(field_name@, value@, r),
{
    let lower = to_lowercase(value);
    if one_of(lower.as_str(), &["true", "yes", "y", "1", "on", "enabled"]) {
        Some(make_detail(field_name, value, Some(json_bool(true)), CoercionTargetType::Boolean, None))
    } else if one_of(lower.as_str(), &["false", "no", "n", "0", "off", "disabled"]) {
        Some(make_detail(field_name, value, Some(json_bool(false)), CoercionTargetType::Boolean, None))
    } else {
        None
    }
}

/// The JSON object holding `value` under `key` and its kind under `type`.
pub open spec fn tagged_value(key: Seq<char>, value: Seq<char>, kind: Seq<char>) -> Value {
    json_object_value(seq![(key, json_string_value(value)), ("type"@, json_string_value(kind))])
}

fn tagged(key: &str, value: &str, kind: &str) -> (v: Value)
    ensures
        v == tagged_value(key@, value@, kind@),
{
    let mut obj: Vec<(String, Value)> = Vec::new();
    obj.push((key.to_string(), json_string(value.to_string())));
    obj.push(("type".to_string(), json_string(kind.to_string())));
    proof {
        assert(entries_view(obj@) =~= seq![(key@, json_string_value(value@)), ("type"@, json_string_value(kind@))]);
    }
    json_object(obj)
}

/// A text that `pattern` matches becomes an object tagged with `kind`.
pub open spec fn tagged_coercion(
    pattern: Seq<char>,
    kind: Seq<char>,
    target: CoercionTargetType,
    field: Seq<char>,
    value: Seq<char>,
    d: Option<CoercionDetail>,
) -> bool {
    if regex_outcome(pattern, value) == Some(true) {
        d matches Some(x) && is_detail(x, field, value, Some(tagged_value(kind, value, kind)), target, None)
    } else {
        d is None
    }
}

fn try_tagged(pattern: &str, kind: &str, target: CoercionTargetType, field_name: &str, value: &str) -> (r: Option<CoercionDetail>)
    ensures
        tagged_coercion(pattern@, kind@, target, field_name@, value@, r),
{
    match regex_matches(pattern, value) {
        Some(true) => Some(make_detail(field_name, value, Some(tagged(kind, value, kind)), target, None)),
        _ => None,
    }
}

/// Reads a text as an email address: an object with the address.
pub fn try_coerce_email(field_name: &str, value: &str) -> (r: Option<CoercionDetail>)
    ensures
        tagged_coercion(EMAIL_PATTERN@, "email"@, CoercionTargetType::Email, field_name@, value@, r),
{
    try_tagged(EMAIL_PATTERN, "email", CoercionTargetType::Email, field_name, value)
}

/// Reads a text as a date: an object with the date as written.
pub fn try_coerce_date(field_name: &str, value: &str) -> (r: Option<CoercionDetail>)
    ensures
        tagged_coercion(DATE_PATTERN@, "date"@, CoercionTargetType::Date, field_name@, value@, r),
{
    try_tagged(DATE_PATTERN, "date", CoercionTargetType::Date, field_name, value)
}

/// Reads a text as a web address: an object with the address.
pub fn try_coerce_url(field_name: &str, value: &str) -> (r: Option<CoercionDetail>)
    ensures
        tagged_coercion(URL_PATTERN@, "url"@, CoercionTargetType::Url, field_name@, value@, r),
{
    try_tagged(URL_PATTERN, "url", CoercionTargetType::Url, field_name, value)
}

/// The object of a phone number: formatted as `(area) exchange-number`,
/// with its area code.
pub open spec fn phone_value(area: Seq<char>, exchange: Seq<char>, number: Seq<char>) -> Value {
    json_object_value(
        seq![
            ("phone"@, json_string_value("("@ + area + ") "@ + exchange + "-"@ + number)),
            ("area_code"@, json_string_value(area)),
            ("type"@, json_string_value("phone"@)),
        ],
    )
}

/// A phone number: a text that the phone pattern matches, with its three
/// groups found.
pub open spec fn phone_coercion(field: Seq<char>, value: Seq<char>, d: Option<CoercionDetail>) -> bool {
    match regex_groups(PHONE_PATTERN@, value) {
        Some(g) => if g.len() >= 4 && g[1] is Some && g[2] is Some && g[3] is Some {
            d matches Some(x) && is_detail(
                x,
                field,
                value,
                Some(phone_value(g[1]->0, g[2]->0, g[3]->0)),
                CoercionTargetType::PhoneNumber,
                None,
            )
        } else {
            d is None
        },
        None => d is None,
    }
}

/// Reads a text as a phone number; see [`phone_coercion`].
pub fn try_coerce_phone(field_name: &str, value: &str) -> (r: Option<CoercionDetail>)
    ensures
        phone_coercion(field_name@, value@, r),
{
    let groups = match regex_match_groups(PHONE_PATTERN, value) {
        Some(g) => g,
        None => {
            return None;
        },
    };
    if groups.len() < 4 {
        return None;
    }
    let (area, exchange, number) = match (&groups[1], &groups[2], &groups[3]) {
        (Some(a), Some(e), Some(n)) => (a, e, n),
        _ => {
            return None;
        },
    };
    let mut formatted = String::new();
    push_str(&mut formatted, "(");
    push_str(&mut formatted, area.as_str());
    push_str(&mut formatted, ") ");
    push_str(&mut formatted, exchange.as_str());
    push_str(&mut formatted, "-");
    push_str(&mut formatted, number.as_str());
    let mut obj: Vec<(String, Value)> = Vec::new();
    obj.push(("phone".to_string(), json_string(formatted)));
    obj.push(("area_code".to_string(), json_string(area.clone())));
    obj.push(("type".to_string(), json_string("phone".to_string())));
    proof {
        assert(entries_view(obj@) =~= seq![
            ("phone"@, json_string_value("("@ + area@ + ") "@ + exchange@ + "-"@ + number@)),
            ("area_code"@, json_string_value(area@)),
            ("type"@, json_string_value("phone"@)),
        ]);
    }
    let v = json_object(obj);
    Some(make_detail(field_name, value, Some(v), CoercionTargetType::PhoneNumber, None))
}


// ---------------------------------------------------------------------------
// Choosing a coercion.

/// The pattern of percentages: a number followed by `%`.
pub const PERCENTAGE_PATTERN: &'static str = "^(\\d*\\.?\\d+)%$";

/// The pattern of currency amounts: a `$` amount with an optional scale
/// word, or an amount followed by a scale word.
pub const CURRENCY_PATTERN: &'static str = "^\\$+([\\d,]+(?:\\.\\d{1,2})?)\\s*(?:million|M|billion|B|thousand|K)?$|^([\\d,]+(?:\\.\\d{1,2})?)\\s*(?:million|M|billion|B|thousand|K)$";

/// The pattern of floating-point numbers.
pub const FLOAT_PATTERN: &'static str = "^[+-]?\\d*\\.?\\d+([eE][+-]?\\d+)?$";

/// The coercions, in the order they are tried.
#[derive(Debug, Clone, Copy, PartialEq, Eq, Structural)]
pub enum CoercionStage {
    /// A number followed by `%`.
    Percentage,
    /// An email address.
    Email,
    /// A phone number.
    Phone,
    /// A web address.
    Url,
    /// A date.
    Date,
    /// A currency amount.
    Currency,
    /// A truth value.
    Boolean,
    /// A whole number.
    Integer,
    /// A floating-point number.
    Float,
}

/// What trying the coercions from a stage on leads to.
#[derive(Debug)]
pub enum CoercionStep {
    /// A coercion applied, with this outcome.
    Done(CoercionDetail),
    /// The text is a percentage whose number text is given: it is read as a
    /// float and divided by 100; when it cannot be read, the coercions go on
    /// from the given stage.
    ReadPercentage(String, CoercionStage),
    /// The text is a currency amount, given without commas, and the scale it
    /// is multiplied by: it is read as a float; when it cannot be read, the
    /// coercions go on from the given stage.
    ReadCurrency(String, u64, CoercionStage),
    /// The text is a floating-point number to be read, or fail with the
    /// float parse error.
    ReadFloat,
}

/// The position of a stage in the order.
pub open spec fn stage_rank(s: CoercionStage) -> nat {
    match s {
        CoercionStage::Percentage => 8,
        CoercionStage::Email => 7,
        CoercionStage::Phone => 6,
        CoercionStage::Url => 5,
        CoercionStage::Date => 4,
        CoercionStage::Currency => 3,
        CoercionStage::Boolean => 2,
        CoercionStage::Integer => 1,
        CoercionStage::Float => 0,
    }
}

/// Group `i` of a match, when it took part.
pub open spec fn group_at(g: Seq<Option<Seq<char>>>, i: int) -> Option<Seq<char>> {
    if 0 <= i < g.len() { g[i] } else { None }
}

/// The text without its commas.
pub open spec fn without_commas(s: Seq<char>) -> Seq<char>
    decreases s.len(),
{
    if s.len() == 0 {
        s
    } else if s.last() == ',' {
        without_commas(s.drop_last())
    } else {
        without_commas(s.drop_last()).push(s.last())
    }
}

/// `needle` occurs in `hay`.
pub open spec fn holds_text(hay: Seq<char>, needle: Seq<char>) -> bool {
    find_chars(hay, needle, 0) is Some
}

/// The scale a currency text names, read from its lowercase form:
/// a million for `million` or any `m`, else a billion for `billion` or any
/// `b`, else a thousand for `thousand` or any `k`, else one.
pub open spec fn currency_scale(value: Seq<char>) -> u64 {
    let l = lowercase(value);
    if holds_text(l, "million"@) || holds_text(l, "m"@) {
        1_000_000
    } else if holds_text(l, "billion"@) || holds_text(l, "b"@) {
        1_000_000_000
    } else if holds_text(l, "thousand"@) || holds_text(l, "k"@) {
        1_000
    } else {
        1
    }
}

/// Trying the coercions from `stage` on for the trimmed text `value` of a
/// field, whose text as given is `original`: each stage either applies,
/// ending the search, or passes to the next; past the last, the outcome is
/// that no coercion applies.
pub open spec fn coercion_step_result(
    field: Seq<char>,
    value: Seq<char>,
    original: Seq<char>,
    stage: CoercionStage,
    r: CoercionStep,
) -> bool
    decreases stage_rank(stage),
{
    match stage {
        CoercionStage::Percentage => match regex_groups(PERCENTAGE_PATTERN@, value) {
            Some(g) if group_at(g, 1) is Some => r matches CoercionStep::ReadPercentage(n, next) && n@ == group_at(
                g,
                1,
            )->0 && next == CoercionStage::Email,
            _ => coercion_step_result(field, value, original, CoercionStage::Email, r),
        },
        CoercionStage::Email => if regex_outcome(EMAIL_PATTERN@, value) == Some(true) {
            r matches CoercionStep::Done(d) && tagged_coercion(
                EMAIL_PATTERN@,
                "email"@,
                CoercionTargetType::Email,
                field,
                value,
                Some(d),
            )
        } else {
            coercion_step_result(field, value, original, CoercionStage::Phone, r)
        },
        CoercionStage::Phone => if phone_coercion(field, value, None) {
            coercion_step_result(field, value, original, CoercionStage::Url, r)
        } else {
            r matches CoercionStep::Done(d) && phone_coercion(field, value, Some(d))
        },
        CoercionStage::Url => if regex_outcome(URL_PATTERN@, value) == Some(true) {
            r matches CoercionStep::Done(d) && tagged_coercion(
                URL_PATTERN@,
                "url"@,
                CoercionTargetType::Url,
                field,
                value,
                Some(d),
            )
        } else {
            coercion_step_result(field, value, original, CoercionStage::Date, r)
        },
        CoercionStage::Date => if regex_outcome(DATE_PATTERN@, value) == Some(true) {
            r matches CoercionStep::Done(d) && tagged_coercion(
                DATE_PATTERN@,
                "date"@,
                CoercionTargetType::Date,
                field,
                value,
                Some(d),
            )
        } else {
            coercion_step_result(field, value, original, CoercionStage::Currency, r)
        },
        CoercionStage::Currency => match regex_groups(CURRENCY_PATTERN@, value) {
            Some(g) if group_at(g, 1) is Some || group_at(g, 2) is Some => {
                let amount = if group_at(g, 1) is Some { group_at(g, 1)->0 } else { group_at(g, 2)->0 };
                r matches CoercionStep::ReadCurrency(a, scale, next) && a@ == without_commas(amount) && scale
                    == currency_scale(value) && next == CoercionStage::Boolean
            },
            _ => coercion_step_result(field, value, original, CoercionStage::Boolean, r),
        },
        CoercionStage::Boolean => if boolean_coercion(field, value, None) {
            coercion_step_result(field, value, original, CoercionStage::Integer, r)
        } else {
            r matches CoercionStep::Done(d) && boolean_coercion(field, value, Some(d))
        },
        CoercionStage::Integer => if regex_outcome(INTEGER_PATTERN@, value) == Some(true) {
            r matches CoercionStep::Done(d) && integer_coercion(field, value, Some(d))
        } else {
            coercion_step_result(field, value, original, CoercionStage::Float, r)
        },
        CoercionStage::Float => if regex_outcome(FLOAT_PATTERN@, value) == Some(true) {
            r matches CoercionStep::ReadFloat
        } else {
            r matches CoercionStep::Done(d) && is_detail(
                d,
                field,
                original,
                None,
                CoercionTargetType::Integer,
                Some("No applicable coercion found"@),
            )
        },
    }
}

/// The text without its commas.
fn strip_commas(s: &str) -> (r: String)
    ensures
        r@ == without_commas(s@),
{
    let chars = chars_of(s);
    let mut r = String::new();
    let mut i: usize = 0;
    while i < chars.len()
        invariant
            chars@ == s@,
            i <= chars@.len(),
            r@ == without_commas(chars@.subrange(0, i as int)),
        decreases chars@.len() - i,
    {
        let c = chars[i];
        proof {
            assert(chars@.subrange(0, i + 1).drop_last() =~= chars@.subrange(0, i as int));
        }
        if c != ',' {
            push_char(&mut r, c);
        }
        i = i + 1;
    }
    proof {
        assert(chars@.subrange(0, chars@.len() as int) =~= chars@);
    }
    r
}

/// Whether `needle` occurs in the characters `hay`.
fn holds(hay: &Vec<char>, needle: &str) -> (b: bool)
    ensures
        b == holds_text(hay@, needle@),
{
    let n = chars_of(needle);
    find_chars_from(hay, &n, 0).is_some()
}

/// The scale a currency text names; see [`currency_scale`].
fn scale_of(value: &str) -> (k: u64)
    ensures
        k == currency_scale(value@),
{
    let lower = to_lowercase(value);
    let l = chars_of(lower.as_str());
    if holds(&l, "million") || holds(&l, "m") {
        1_000_000
    } else if holds(&l, "billion") || holds(&l, "b") {
        1_000_000_000
    } else if holds(&l, "thousand") || holds(&l, "k") {
        1_000
    } else {
        1
    }
}

/// Tries the coercions from `stage` on for the trimmed text `value` of a
/// field whose text as given is `original`; see [`coercion_step_result`].
pub fn coercion_step(field_name: &str, value: &str, original: &str, stage: CoercionStage) -> (r: CoercionStep)
    ensures
        coercion_step_result(field_name@, value@, original@, stage, r),
    decreases stage_rank(stage),
{
    match stage {
        CoercionStage::Percentage => {
            if let Some(g) = regex_match_groups(PERCENTAGE_PATTERN, value) {
                if g.len() > 1 {
                    if let Some(n) = &g[1] {
                        proof {
                            assert(g@.map_values(|x: Option<String>| opt_text(x))[1] == opt_text(g@[1]));
                        }
                        return CoercionStep::ReadPercentage(n.clone(), CoercionStage::Email);
                    }
                }
                proof {
                    if g@.len() > 1 {
                        assert(g@.map_values(|x: Option<String>| opt_text(x))[1] == opt_text(g@[1]));
                    }
                }
            }
            coercion_step(field_name, value, original, CoercionStage::Email)
        },
        CoercionStage::Email => match try_coerce_email(field_name, value) {
            Some(d) => CoercionStep::Done(d),
            None => coercion_step(field_name, value, original, CoercionStage::Phone),
        },
        CoercionStage::Phone => match try_coerce_phone(field_name, value) {
            Some(d) => CoercionStep::Done(d),
            None => coercion_step(field_name, value, original, CoercionStage::Url),
        },
        CoercionStage::Url => match try_coerce_url(field_name, value) {
            Some(d) => CoercionStep::Done(d),
            None => coercion_step(field_name, value, original, CoercionStage::Date),
        },
        CoercionStage::Date => match try_coerce_date(field_name, value) {
            Some(d) => CoercionStep::Done(d),
            None => coercion_step(field_name, value, original, CoercionStage::Currency),
        },
        CoercionStage::Currency => {
            if let Some(g) = regex_match_groups(CURRENCY_PATTERN, value) {
                let ghost gv = g@.map_values(|x: Option<String>| opt_text(x));
                proof {
                    if g@.len() > 1 {
                        assert(gv[1] == opt_text(g@[1]));
                    }
                    if g@.len() > 2 {
                        assert(gv[2] == opt_text(g@[2]));
                    }
                }
                let first = if g.len() > 1 { &g[1] } else { &None };
                let amount = match first {
                    Some(a) => Some(a),
                    None => if g.len() > 2 { g[2].as_ref() } else { None },
                };
                if let Some(a) = amount {
                    let cleaned = strip_commas(a.as_str());
                    let scale = scale_of(value);
                    return CoercionStep::ReadCurrency(cleaned, scale, CoercionStage::Boolean);
                }
            }
            coercion_step(field_name, value, original, CoercionStage::Boolean)
        },
        CoercionStage::Boolean => match try_coerce_boolean(field_name, value) {
            Some(d) => CoercionStep::Done(d),
            None => coercion_step(field_name, value, original, CoercionStage::Integer),
        },
        CoercionStage::Integer => match try_coerce_integer(field_name, value) {
            Some(d) => CoercionStep::Done(d),
            None => coercion_step(field_name, value, original, CoercionStage::Float),
        },
        CoercionStage::Float => match regex_matches(FLOAT_PATTERN, value) {
            Some(true) => CoercionStep::ReadFloat,
            _ => {
                let mut m = String::new();
                push_str(&mut m, "No applicable coercion found");
                CoercionStep::Done(make_detail(field_name, original, None, CoercionTargetType::Integer, Some(m)))
            },
        },
    }
}


// ---------------------------------------------------------------------------
// What the currency scale is.

/// A search finds an occurrence at or after where it starts.
proof fn lemma_find_chars_finds(hay: Seq<char>, needle: Seq<char>, from: int, q: int)
    requires
        0 <= from <= q,
        q + needle.len() <= hay.len(),
        hay.subrange(q, q + needle.len()) == needle,
    ensures
        find_chars(hay, needle, from) is Some,
    decreases q - from,
{
    if hay.subrange(from, from + needle.len()) != needle {
        lemma_find_chars_finds(hay, needle, from + 1, q);
    }
}

/// A text holds a one-character text exactly when it holds the character;
/// a text holding a word holds its first character.
proof fn lemma_holds_char(l: Seq<char>, word: Seq<char>)
    requires
        word.len() > 0,
    ensures
        holds_text(l, word) ==> l.contains(word[0]),
        word.len() == 1 ==> (holds_text(l, word) <==> l.contains(word[0])),
{
    crate::templates::lemma_find_chars(l, word, 0);
    if holds_text(l, word) {
        let i = find_chars(l, word, 0)->0;
        assert(l.subrange(i, i + word.len())[0] == l[i]);
    }
    if word.len() == 1 && l.contains(word[0]) {
        let q = choose|q: int| 0 <= q < l.len() && l[q] == word[0];
        assert(l.subrange(q, q + 1) =~= word);
        lemma_find_chars_finds(l, word, 0, q);
    }
}

/// The scale of a currency text, read from the characters of its lowercase
/// form: a million when it holds an `m`, else a billion when it holds a `b`,
/// else a thousand when it holds a `k` or the word `thousand`, else one.
pub proof fn lemma_currency_scale_by_letters(value: Seq<char>)
    ensures
        ({
            let l = lowercase(value);
            currency_scale(value) == if l.contains('m') {
                1_000_000u64
            } else if l.contains('b') {
                1_000_000_000u64
            } else if l.contains('k') || exists|q: int| 0 <= q && q + 8 <= l.len() && #[trigger] l.subrange(q, q + 8) == "thousand"@ {
                1_000u64
            } else {
                1u64
            }
        }),
{
    let l = lowercase(value);
    reveal_strlit("million");
    reveal_strlit("m");
    reveal_strlit("billion");
    reveal_strlit("b");
    reveal_strlit("thousand");
    reveal_strlit("k");
    lemma_holds_char(l, "million"@);
    lemma_holds_char(l, "m"@);
    lemma_holds_char(l, "billion"@);
    lemma_holds_char(l, "b"@);
    lemma_holds_char(l, "k"@);
    crate::templates::lemma_find_chars(l, "thousand"@, 0);
    if exists|q: int| 0 <= q && q + 8 <= l.len() && #[trigger] l.subrange(q, q + 8) == "thousand"@ {
        let q = choose|q: int| 0 <= q && q + 8 <= l.len() && #[trigger] l.subrange(q, q + 8) == "thousand"@;
        lemma_find_chars_finds(l, "thousand"@, 0, q);
    }
    if holds_text(l, "thousand"@) {
        let i = find_chars(l, "thousand"@, 0)->0;
        assert(l.subrange(i, i + 8) == "thousand"@);
    }
}

/// Only the currency stage reads a currency amount; the amount it gives is
/// multiplied by the scale its letters name (see
/// [`lemma_currency_scale_by_letters`]), and when it cannot be read the
/// coercions go on with truth values.
pub proof fn lemma_currency_step(field: Seq<char>, value: Seq<char>, original: Seq<char>, stage: CoercionStage, r: CoercionStep)
    requires
        coercion_step_result(field, value, original, stage, r),
        r matches CoercionStep::ReadCurrency(_, _, _),
    ensures
        r matches CoercionStep::ReadCurrency(a, scale, next) && scale == currency_scale(value) && next
            == CoercionStage::Boolean && stage_rank(stage) >= 3,
    decreases stage_rank(stage),
{
    match stage {
        CoercionStage::Percentage => lemma_currency_step(field, value, original, CoercionStage::Email, r),
        CoercionStage::Email => lemma_currency_step(field, value, original, CoercionStage::Phone, r),
        CoercionStage::Phone => lemma_currency_step(field, value, original, CoercionStage::Url, r),
        CoercionStage::Url => lemma_currency_step(field, value, original, CoercionStage::Date, r),
        CoercionStage::Date => lemma_currency_step(field, value, original, CoercionStage::Currency, r),
        CoercionStage::Currency => {
            if !(regex_groups(CURRENCY_PATTERN@, value) matches Some(g) && (group_at(g, 1) is Some || group_at(g, 2) is Some)) {
                lemma_currency_step(field, value, original, CoercionStage::Boolean, r);
            }
        },
        CoercionStage::Boolean => lemma_currency_step(field, value, original, CoercionStage::Integer, r),
        CoercionStage::Integer => lemma_currency_step(field, value, original, CoercionStage::Float, r),
        CoercionStage::Float => {},
    }
}


/// A currency amount the coercions ask to read is scaled by what the
/// letters of the text name: a million for an `m`, else a billion for a
/// `b`, else a thousand for a `k` or the word `thousand`, else one.
pub proof fn lemma_currency_read_scale(field: Seq<char>, value: Seq<char>, original: Seq<char>, r: CoercionStep)
    requires
        coercion_step_result(field, value, original, CoercionStage::Percentage, r),
        r matches CoercionStep::ReadCurrency(_, _, _),
    ensures
        ({
            let l = lowercase(value);
            r matches CoercionStep::ReadCurrency(a, scale, next) && scale == if l.contains('m') {
                1_000_000u64
            } else if l.contains('b') {
                1_000_000_000u64
            } else if l.contains('k') || exists|q: int| 0 <= q && q + 8 <= l.len() && #[trigger] l.subrange(q, q + 8) == "thousand"@ {
                1_000u64
            } else {
                1u64
            }
        }),
{
    lemma_currency_step(field, value, original, CoercionStage::Percentage, r);
    lemma_currency_scale_by_letters(value);
}

} // verus!
