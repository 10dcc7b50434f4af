//! Reading a model's JSON answer into extractions, and checking the
//! extractions against the fields that were asked for.

use vstd::prelude::*;
use vstd::utf8::{encode_utf8, decode_utf8, is_char_boundary};
use serde_json::Value;
use crate::text::{bytes, byte_len, substr, push_str, push_decimal, decimal, chars_of, white_space, is_white_space};
use crate::data::{Extraction, strings_equal};
use crate::exceptions::{LangExtractError, LangExtractResult};
use crate::schema::{json_str_of, json_as_str};
use crate::layers::{parsed_json, parse_json, object_entries, json_object_entries, array_items, json_array_items};
use crate::json::{json_object, json_object_value, entries_view};
use crate::schema::{json_string, json_string_value};

verus! {

broadcast use vstd::seq::group_seq_axioms;

/// The kinds of value a coercion aims at.
#[derive(Debug, Clone, Copy, PartialEq, Eq, Structural)]
pub enum CoercionTargetType {
    /// A whole number.
    Integer,
    /// A decimal number.
    Float,
    /// True or false.
    Boolean,
    /// An amount of money.
    Currency,
    /// A percentage.
    Percentage,
    /// An email address.
    Email,
    /// A phone number.
    PhoneNumber,
    /// A date.
    Date,
    /// A web address.
    Url,
}

/// One problem that makes a set of extractions invalid.
#[derive(Debug, Clone)]
pub struct ValidationError {
    /// What is wrong.
    pub message: String,
    /// The field it concerns.
    pub field_path: Option<String>,
    /// What was expected.
    pub expected: Option<String>,
    /// What was found.
    pub actual: Option<String>,
}

/// One doubt about a set of extractions that leaves it valid.
#[derive(Debug, Clone)]
pub struct ValidationWarning {
    /// What is doubtful.
    pub message: String,
    /// The field it concerns.
    pub field_path: Option<String>,
}

/// The outcome of coercing one field's text to a typed value.
#[derive(Debug, Clone)]
pub struct CoercionDetail {
    /// The field.
    pub field_name: String,
    /// Its text.
    pub original_value: String,
    /// The typed value, when the coercion succeeded.
    pub coerced_value: Option<Value>,
    /// The kind of value aimed at.
    pub target_type: CoercionTargetType,
    /// Whether the coercion succeeded.
    pub success: bool,
    /// Why it failed, if it did.
    pub error_message: Option<String>,
}

/// How the coercions of a set of extractions went.
#[derive(Debug, Clone)]
pub struct CoercionSummary {
    /// How many succeeded.
    pub successful_coercions: usize,
    /// How many failed.
    pub failed_coercions: usize,
    /// Each coercion.
    pub coercion_details: Vec<CoercionDetail>,
}

/// The outcome of checking a set of extractions.
#[derive(Debug, Clone)]
pub struct ValidationResult {
    /// Whether no error was found.
    pub is_valid: bool,
    /// The errors.
    pub errors: Vec<ValidationError>,
    /// The warnings.
    pub warnings: Vec<ValidationWarning>,
    /// The coerced values, by field, when any coercion succeeded.
    pub corrected_data: Option<Value>,
    /// Where the model's raw answer was saved, if it was.
    pub raw_output_file: Option<String>,
    /// How the coercions went, when there were any.
    pub coercion_summary: Option<CoercionSummary>,
}

// ---------------------------------------------------------------------------
// Parsing.

/// An extraction as the parser makes it: class, text and group.
pub type ParsedView = (Seq<char>, Seq<char>, Option<usize>);

/// The extraction holds the class, text and group of `v` and nothing else.
pub open spec fn is_parsed(e: Extraction, v: ParsedView) -> bool {
    e.extraction_class@ == v.0 && e.extraction_text@ == v.1 && e.group_index == v.2 && e.char_interval is None
        && e.alignment_status is None && e.extraction_index is None && e.description is None && e.attributes is None
        && e.token_interval is None
}

/// The extractions are those of the views, in order.
pub open spec fn are_parsed(es: Seq<Extraction>, vs: Seq<ParsedView>) -> bool {
    es.len() == vs.len() && forall|i: int| 0 <= i < es.len() ==> is_parsed(#[trigger] es[i], vs[i])
}

/// Whether a JSON value is `null`.
pub uninterp spec fn json_is_null(v: Value) -> bool;

/// The compact JSON text of a value, as its `Display` writes it.
pub uninterp spec fn json_text(v: Value) -> Seq<char>;

/// `serde_json::Value::is_null`. Stated: the answer is [`json_is_null`] of
/// the value, and a `null` is not a string.
#[verifier::external_body]
fn json_null_test(v: &Value) -> (b: bool)
    ensures
        b == json_is_null(*v),
        b ==> json_str_of(*v) is None,
{
    v.is_null()
}

/// `to_string` on a `serde_json::Value`, its compact JSON text. For a
/// number or a boolean this is the same text as `to_string` on the number
/// or the boolean itself. Stated: the text is [`json_text`] of the value.
#[verifier::external_body]
fn json_to_string(v: &Value) -> (r: String)
    ensures
        r@ == json_text(*v),
{
    v.to_string()
}

/// The text an object member gives an extraction: a string's contents, no
/// text for `null`, and the JSON text of any other value (a number, a
/// boolean, an array or an object).
pub open spec fn item_text(v: Value) -> Option<Seq<char>> {
    match json_str_of(v) {
        Some(s) => Some(s),
        None => if json_is_null(v) {
            None
        } else {
            Some(json_text(v))
        },
    }
}

/// The text of an object member; see [`item_text`].
fn member_text(v: &Value) -> (r: Option<String>)
    ensures
        match r {
            Some(s) => item_text(*v) == Some(s@),
            None => item_text(*v) is None,
        },
{
    match json_as_str(v) {
        Some(s) => Some(s),
        None => if json_null_test(v) {
            None
        } else {
            Some(json_to_string(v))
        },
    }
}

/// How Rust's `Debug` shows a JSON value.
pub uninterp spec fn debug_text(v: Value) -> Seq<char>;

/// `format!("{:?}", v)` on a `serde_json::Value`. Stated: the text is
/// [`debug_text`] of the value.
#[verifier::external_body]
fn json_debug(v: &Value) -> (r: String)
    ensures
        r@ == debug_text(*v),
{
    format!("{:?}", v)
}

/// The value of the first entry with key `k`.
pub open spec fn entry_value(es: Seq<(Seq<char>, Value)>, k: Seq<char>, i: int) -> Option<Value>
    decreases es.len() - i,
{
    if i < 0 || i >= es.len() {
        None
    } else if es[i].0 == k {
        Some(es[i].1)
    } else {
        entry_value(es, k, i + 1)
    }
}

/// The class of a string item: `item_` and its position in a list, else
/// `text`.
pub open spec fn string_item_class(index: Option<usize>) -> Seq<char> {
    match index {
        Some(i) => "item_"@ + decimal(i as nat),
        None => "text"@,
    }
}

/// The extractions of the first `n` object members: one per member that is
/// not `null`, its key as class.
pub open spec fn member_views(es: Seq<(Seq<char>, Value)>, index: Option<usize>, n: int) -> Seq<ParsedView>
    decreases n,
{
    if n <= 0 || n > es.len() {
        seq![]
    } else {
        member_views(es, index, n - 1) + match item_text(es[n - 1].1) {
            Some(t) => seq![(es[n - 1].0, t, index)],
            None => seq![],
        }
    }
}

/// The extractions of one item: an object gives one per member, a string
/// gives one of class [`string_item_class`]; anything else is an error
/// whose message names the item.
pub open spec fn single_item(item: Value, index: Option<usize>) -> Result<Seq<ParsedView>, Seq<char>> {
    match object_entries(item) {
        Some(es) => Ok(member_views(es, index, es.len() as int)),
        None => match json_str_of(item) {
            Some(s) => Ok(seq![(string_item_class(index), s, None::<usize>)]),
            None => Err("Unsupported item type: "@ + debug_text(item)),
        },
    }
}

/// The extractions of the first `n` items of a list, each item numbered by
/// its position; the first failing item's error.
pub open spec fn list_items(items: Seq<Value>, n: int) -> Result<Seq<ParsedView>, Seq<char>>
    decreases n,
{
    if n <= 0 || n > items.len() {
        Ok(seq![])
    } else {
        match list_items(items, n - 1) {
            Ok(prev) => match single_item(items[n - 1], Some((n - 1) as usize)) {
                Ok(this) => Ok(prev + this),
                Err(m) => Err(m),
            },
            Err(m) => Err(m),
        }
    }
}

/// The extractions of a parsed answer: the items of a top-level list, of
/// the list under `data` or else under `results`, or the members of a flat
/// object; nothing for any other value.
pub open spec fn json_answer(v: Value) -> Result<Seq<ParsedView>, Seq<char>> {
    match array_items(v) {
        Some(items) => list_items(items, items.len() as int),
        None => match object_entries(v) {
            Some(es) => {
                let data = match entry_value(es, "data"@, 0) {
                    Some(d) => array_items(d),
                    None => None,
                };
                let results = match entry_value(es, "results"@, 0) {
                    Some(d) => array_items(d),
                    None => None,
                };
                match data {
                    Some(items) => list_items(items, items.len() as int),
                    None => match results {
                        Some(items) => list_items(items, items.len() as int),
                        None => single_item(v, None),
                    },
                }
            },
            None => Ok(seq![]),
        },
    }
}

/// The value under `key` when it is a list.
pub open spec fn list_under(es: Seq<(Seq<char>, Value)>, key: Seq<char>) -> Option<Value> {
    match entry_value(es, key, 0) {
        Some(d) => if array_items(d) is Some { Some(d) } else { None },
        None => None,
    }
}

/// An answer that is an object wrapping a list reads as that list would on
/// its own, its items each parsed with their position, in order: the list
/// under `data`, or, when `data` holds no list, the list under `results`.
pub proof fn lemma_wrapped_list_answer(v: Value)
    requires
        array_items(v) is None,
        object_entries(v) is Some,
    ensures
        list_under(object_entries(v)->0, "data"@) matches Some(d) ==> json_answer(v) == json_answer(d),
        list_under(object_entries(v)->0, "data"@) is None ==> (list_under(object_entries(v)->0, "results"@) matches Some(d)
            ==> json_answer(v) == json_answer(d)),
{
}

fn item_class(index: Option<usize>) -> (r: String)
    ensures
        r@ == string_item_class(index),
{
    match index {
        Some(i) => {
            let mut s = String::new();
            push_str(&mut s, "item_");
            push_decimal(&mut s, i);
            s
        },
        None => "text".to_string(),
    }
}

fn parsed_extraction(class: String, text: String, group: Option<usize>) -> (e: Extraction)
    ensures
        is_parsed(e, (class@, text@, group)),
{
    let mut e = Extraction::new(class, text);
    e.group_index = group;
    e
}

/// The extractions of one item of a model's answer; see [`single_item`].
pub fn parse_single_item(item: &Value, index: Option<usize>) -> (r: LangExtractResult<Vec<Extraction>>)
    ensures
        match single_item(*item, index) {
            Ok(vs) => r matches Ok(es) && are_parsed(es@, vs),
            Err(m) => r matches Err(LangExtractError::ParsingError(x)) && x@ == m,
        },
{
    let mut extractions: Vec<Extraction> = Vec::new();
    match json_object_entries(item) {
        Some(entries) => {
            let ghost es = entries_view(entries@);
            let mut i: usize = 0;
            while i < entries.len()
                invariant
                    i <= entries@.len(),
                    es == entries_view(entries@),
                    are_parsed(extractions@, member_views(es, index, i as int)),
                decreases entries@.len() - i,
            {
                proof {
                    assert(es[i as int] == (entries@[i as int].0@, entries@[i as int].1));
                }
                let ghost before = extractions@;
                match member_text(&entries[i].1) {
                    Some(text) => {
                        let e = parsed_extraction(entries[i].0.clone(), text, index);
                        extractions.push(e);
                        proof {
                            let vs = member_views(es, index, i + 1);
                            assert(vs == member_views(es, index, i as int) + seq![(es[i as int].0, item_text(es[i as int].1)->0, index)]);
                            assert forall|q: int| 0 <= q < extractions@.len() implies is_parsed(#[trigger] extractions@[q], vs[q]) by {
                                if q < before.len() {
                                    assert(extractions@[q] == before[q]);
                                }
                            }
                        }
                    },
                    None => {
                        proof {
                            assert(member_views(es, index, i + 1) =~= member_views(es, index, i as int));
                        }
                    },
                }
                i = i + 1;
            }
            Ok(extractions)
        },
        None => match crate::schema::json_as_str(item) {
            Some(s) => {
                let e = parsed_extraction(item_class(index), s, None);
                extractions.push(e);
                proof {
                    assert(are_parsed(extractions@, seq![(string_item_class(index), json_str_of(*item)->0, None::<usize>)]));
                }
                Ok(extractions)
            },
            None => {
                let mut m = String::new();
                push_str(&mut m, "Unsupported item type: ");
                let d = json_debug(item);
                push_str(&mut m, d.as_str());
                Err(LangExtractError::ParsingError(m))
            },
        },
    }
}

fn parse_list(items: &Vec<Value>) -> (r: LangExtractResult<Vec<Extraction>>)
    ensures
        match list_items(items@, items@.len() as int) {
            Ok(vs) => r matches Ok(es) && are_parsed(es@, vs),
            Err(m) => r matches Err(LangExtractError::ParsingError(x)) && x@ == m,
        },
{
    let mut extractions: Vec<Extraction> = Vec::new();
    let mut i: usize = 0;
    while i < items.len()
        invariant
            i <= items@.len(),
            list_items(items@, i as int) matches Ok(vs) && are_parsed(extractions@, vs),
        decreases items@.len() - i,
    {
        let ghost prev = list_items(items@, i as int)->Ok_0;
        match parse_single_item(&items[i], Some(i)) {
            Ok(more) => {
                let ghost before = extractions@;
                let ghost this = single_item(items@[i as int], Some(i))->Ok_0;
                let mut more = more;
                let ghost moved = more@;
                extractions.append(&mut more);
                proof {
                    let vs = prev + this;
                    assert(list_items(items@, i + 1) == Ok::<Seq<ParsedView>, Seq<char>>(vs));
                    assert forall|q: int| 0 <= q < extractions@.len() implies is_parsed(#[trigger] extractions@[q], vs[q]) by {
                        if q < before.len() {
                            assert(extractions@[q] == before[q]);
                        } else {
                            assert(extractions@[q] == moved[q - before.len()]);
                        }
                    }
                }
            },
            Err(e) => {
                proof {
                    assert(list_items(items@, i + 1) == Err::<Seq<ParsedView>, Seq<char>>(single_item(items@[i as int], Some(i))->Err_0));
                    lemma_list_error(items@, i + 1, items@.len() as int);
                }
                return Err(e);
            },
        }
        i = i + 1;
    }
    Ok(extractions)
}

proof fn lemma_list_error(items: Seq<Value>, a: int, b: int)
    requires
        0 < a <= b <= items.len(),
        list_items(items, a) is Err,
    ensures
        list_items(items, b) == list_items(items, a),
    decreases b - a,
{
    if a < b {
        lemma_list_error(items, a, b - 1);
    }
}

fn find_entry<'a>(entries: &'a Vec<(String, Value)>, key: &str) -> (r: Option<&'a Value>)
    ensures
        match r {
            Some(v) => entry_value(entries_view(entries@), key@, 0) == Some(*v),
            None => entry_value(entries_view(entries@), key@, 0) is None,
        },
{
    let ghost es = entries_view(entries@);
    let mut i: usize = 0;
    while i < entries.len()
        invariant
            i <= entries@.len(),
            es == entries_view(entries@),
            entry_value(es, key@, 0) == entry_value(es, key@, i as int),
        decreases entries@.len() - i,
    {
        if strings_equal(entries[i].0.as_str(), key) {
            return Some(&entries[i].1);
        }
        i = i + 1;
    }
    None
}

/// The extractions of a parsed answer; see [`json_answer`].
pub fn parse_json_response(json: &Value) -> (r: LangExtractResult<Vec<Extraction>>)
    ensures
        match json_answer(*json) {
            Ok(vs) => r matches Ok(es) && are_parsed(es@, vs),
            Err(m) => r matches Err(LangExtractError::ParsingError(x)) && x@ == m,
        },
{
    match json_array_items(json) {
        Some(items) => parse_list(&items),
        None => match json_object_entries(json) {
            Some(entries) => {
                let data = match find_entry(&entries, "data") {
                    Some(d) => json_array_items(d),
                    None => None,
                };
                match data {
                    Some(items) => parse_list(&items),
                    None => {
                        let results = match find_entry(&entries, "results") {
                            Some(d) => json_array_items(d),
                            None => None,
                        };
                        match results {
                            Some(items) => parse_list(&items),
                            None => parse_single_item(json, None),
                        }
                    },
                }
            },
            None => Ok(Vec::new()),
        },
    }
}

/// The first position at or after `i` holding byte `x`.
pub open spec fn first_byte(b: Seq<u8>, x: u8, i: int) -> Option<int>
    decreases b.len() - i,
{
    if i < 0 || i >= b.len() {
        None
    } else if b[i] == x {
        Some(i)
    } else {
        first_byte(b, x, i + 1)
    }
}

/// The last position below `n` holding byte `x`.
pub open spec fn last_byte(b: Seq<u8>, x: u8, n: int) -> Option<int>
    decreases n,
{
    if n <= 0 || n > b.len() {
        None
    } else if b[n - 1] == x {
        Some(n - 1)
    } else {
        last_byte(b, x, n - 1)
    }
}

/// The stretch from the first `{` to the last `}` of a text, when both
/// occur: `Some(Ok(..))` with its bounds when the `{` comes first, and
/// `Some(Err(()))` when the `}` comes first.
pub open spec fn braced(response: Seq<char>) -> Option<Result<(int, int), ()>> {
    let b = encode_utf8(response);
    match (first_byte(b, 0x7Bu8, 0), last_byte(b, 0x7Du8, b.len() as int)) {
        (Some(s), Some(e)) => if s <= e { Some(Ok((s, e + 1))) } else { Some(Err(())) },
        _ => None,
    }
}

/// The message of the error for an answer that holds no JSON.
pub open spec fn unparsable_message(response: Seq<char>) -> Seq<char> {
    "Could not parse response as JSON: "@ + response
}

/// The extractions of a model's answer: of the answer read as JSON, else of
/// the stretch from its first `{` to its last `}` read as JSON; else an
/// error that quotes the answer.
pub open spec fn response_extractions(response: Seq<char>) -> Result<Seq<ParsedView>, Seq<char>> {
    match parsed_json(response) {
        Some(v) => json_answer(v),
        None => match braced(response) {
            Some(Ok((s, e))) => match parsed_json(decode_utf8(encode_utf8(response).subrange(s, e))) {
                Some(v) => json_answer(v),
                None => Err(unparsable_message(response)),
            },
            _ => Err(unparsable_message(response)),
        },
    }
}

/// Reading the answer takes no slice that ends before it starts: either it
/// is JSON as a whole, or no `}` comes before the first `{` as the last one.
pub open spec fn response_readable(response: Seq<char>) -> bool {
    parsed_json(response) is Some || !(braced(response) matches Some(Err(_)))
}

proof fn lemma_first_byte(b: Seq<u8>, x: u8, i: int)
    requires
        0 <= i,
    ensures
        first_byte(b, x, i) matches Some(k) ==> i <= k < b.len() && b[k] == x,
    decreases b.len() - i,
{
    if i < b.len() && b[i] != x {
        lemma_first_byte(b, x, i + 1);
    }
}

proof fn lemma_last_byte(b: Seq<u8>, x: u8, n: int)
    ensures
        last_byte(b, x, n) matches Some(k) ==> 0 <= k < n && b[k] == x,
    decreases n,
{
    if 0 < n <= b.len() && b[n - 1] != x {
        lemma_last_byte(b, x, n - 1);
    }
}

/// The extractions of a model's answer; see [`response_extractions`].
pub fn parse_response(response: &str) -> (r: LangExtractResult<Vec<Extraction>>)
    requires
        response_readable(response@),
    ensures
        match response_extractions(response@) {
            Ok(vs) => r matches Ok(es) && are_parsed(es@, vs),
            Err(m) => r matches Err(LangExtractError::ParsingError(x)) && x@ == m,
        },
{
    match parse_json(response) {
        Some(v) => {
            return parse_json_response(&v);
        },
        None => {},
    }
    let b = response.as_bytes();
    let n = b.len();
    let mut first: Option<usize> = None;
    let mut i: usize = 0;
    while i < n
        invariant
            n == b@.len(),
            b@ == bytes(response),
            i <= n,
            first is None ==> first_byte(b@, 0x7Bu8, 0) == first_byte(b@, 0x7Bu8, i as int),
            first matches Some(k) ==> first_byte(b@, 0x7Bu8, 0) == Some(k as int),
        decreases n - i,
    {
        if first.is_none() && b[i] == 0x7Bu8 {
            first = Some(i);
        }
        i = i + 1;
    }
    let mut last: Option<usize> = None;
    let mut j: usize = n;
    while j > 0
        invariant
            n == b@.len(),
            j <= n,
            last is None ==> last_byte(b@, 0x7Du8, n as int) == last_byte(b@, 0x7Du8, j as int),
            last matches Some(k) ==> last_byte(b@, 0x7Du8, n as int) == Some(k as int),
        decreases j,
    {
        if last.is_none() && b[j - 1] == 0x7Du8 {
            last = Some(j - 1);
        }
        j = j - 1;
    }
    proof {
        lemma_first_byte(b@, 0x7Bu8, 0);
        lemma_last_byte(b@, 0x7Du8, n as int);
    }
    match (first, last) {
        (Some(s), Some(e)) => {
            proof {
                crate::text::lemma_str_valid(response);
                crate::text::lemma_boundary_iff(b@, s as int);
                crate::text::lemma_boundary_after_ascii(b@, e + 1);
            }
            let inner = substr(response, s, e + 1);
            proof {
                crate::text::lemma_chars_of(inner);
            }
            match parse_json(inner) {
                Some(v) => {
                    return parse_json_response(&v);
                },
                None => {},
            }
        },
        _ => {},
    }
    let mut m = String::new();
    push_str(&mut m, "Could not parse response as JSON: ");
    push_str(&mut m, response);
    Err(LangExtractError::ParsingError(m))
}

/// Whether the answer can be read without a slice that ends before it
/// starts; see [`response_readable`].
fn readable(response: &str) -> (r: bool)
    ensures
        r == response_readable(response@),
{
    if parse_json(response).is_some() {
        return true;
    }
    let b = response.as_bytes();
    let n = b.len();
    let mut first: Option<usize> = None;
    let mut i: usize = 0;
    while i < n
        invariant
            n == b@.len(),
            b@ == bytes(response),
            i <= n,
            first is None ==> first_byte(b@, 0x7Bu8, 0) == first_byte(b@, 0x7Bu8, i as int),
            first matches Some(k) ==> first_byte(b@, 0x7Bu8, 0) == Some(k as int),
        decreases n - i,
    {
        if first.is_none() && b[i] == 0x7Bu8 {
            first = Some(i);
        }
        i = i + 1;
    }
    let mut last: Option<usize> = None;
    let mut j: usize = n;
    while j > 0
        invariant
            n == b@.len(),
            j <= n,
            last is None ==> last_byte(b@, 0x7Du8, n as int) == last_byte(b@, 0x7Du8, j as int),
            last matches Some(k) ==> last_byte(b@, 0x7Du8, n as int) == Some(k as int),
        decreases j,
    {
        if last.is_none() && b[j - 1] == 0x7Du8 {
            last = Some(j - 1);
        }
        j = j - 1;
    }
    match (first, last) {
        (Some(s), Some(e)) => s <= e,
        _ => true,
    }
}

/// The extractions kept for a model's answer that could not be parsed: the
/// whole answer as one extraction of class `raw_response`.
pub fn unparsed_response(response_text: &str) -> (v: Vec<Extraction>)
    ensures
        v@.len() == 1,
        is_parsed(v@[0], ("raw_response"@, response_text@, None)),
{
    let mut v: Vec<Extraction> = Vec::new();
    v.push(Extraction::new("raw_response".to_string(), response_text.to_string()));
    v
}

/// The extractions of a model's answer, as [`parse_response`] reads them;
/// `None` for an answer whose last `}` comes before its first `{` and that
/// is no JSON as a whole, which cannot be read that way.
pub fn try_parse_response(response: &str) -> (r: Option<LangExtractResult<Vec<Extraction>>>)
    ensures
        r is None <==> !response_readable(response@),
        r matches Some(res) ==> match response_extractions(response@) {
            Ok(vs) => res matches Ok(es) && are_parsed(es@, vs),
            Err(m) => res matches Err(LangExtractError::ParsingError(x)) && x@ == m,
        },
{
    if readable(response) {
        Some(parse_response(response))
    } else {
        None
    }
}

// ---------------------------------------------------------------------------
// Validation.

/// Some extraction has class `f`.
pub open spec fn has_class(es: Seq<Extraction>, f: Seq<char>) -> bool {
    exists|i: int| 0 <= i < es.len() && #[trigger] es[i].extraction_class@ == f
}

/// The first `n` expected fields that no extraction has as its class.
pub open spec fn missing_fields(es: Seq<Extraction>, expected: Seq<String>, n: int) -> Seq<Seq<char>>
    decreases n,
{
    if n <= 0 || n > expected.len() {
        seq![]
    } else {
        missing_fields(es, expected, n - 1) + if has_class(es, expected[n - 1]@) { seq![] } else { seq![expected[n - 1]@] }
    }
}

/// The error for a required field `f` that is missing.
pub open spec fn is_missing_error(err: ValidationError, f: Seq<char>) -> bool {
    err.message@ == "Required field '"@ + f + "' is missing"@ && (err.field_path matches Some(p) && p@ == f) && (
    err.expected matches Some(x) && x@ == "Present"@) && (err.actual matches Some(a) && a@ == "Missing"@)
}

/// A warning as plain values: its message and field.
pub type WarningView = (Seq<char>, Option<Seq<char>>);

/// The text holds nothing but whitespace.
pub open spec fn blank(s: Seq<char>) -> bool {
    forall|i: int| 0 <= i < s.len() ==> is_white_space(#[trigger] s[i])
}

/// The warnings about one extraction: an empty (or blank) text, a text of
/// more than 1000 bytes.
pub open spec fn extraction_warnings(e: Extraction) -> Seq<WarningView> {
    let class = e.extraction_class@;
    let len = vstd::utf8::encode_utf8(e.extraction_text@).len();
    (if blank(e.extraction_text@) {
        seq![("Empty extraction text for field '"@ + class + "'"@, Some(class))]
    } else {
        seq![]
    }) + if len > 1000 {
        seq![("Very long extraction text ("@ + decimal(len) + " chars) for field '"@ + class + "'"@, Some(class))]
    } else {
        seq![]
    }
}

/// The warnings about the first `n` extractions.
pub open spec fn warnings_upto(es: Seq<Extraction>, n: int) -> Seq<WarningView>
    decreases n,
{
    if n <= 0 || n > es.len() {
        seq![]
    } else {
        warnings_upto(es, n - 1) + extraction_warnings(es[n - 1])
    }
}

/// All warnings: those about each extraction, then one when there are
/// fewer than half as many extractions as expected fields.
pub open spec fn all_warnings(es: Seq<Extraction>, expected: Seq<String>) -> Seq<WarningView> {
    warnings_upto(es, es.len() as int) + if es.len() < expected.len() / 2 {
        seq![
            ("Low extraction count: found "@ + decimal(es.len()) + " but expected around "@ + decimal(expected.len()),
            None::<Seq<char>>),
        ]
    } else {
        seq![]
    }
}

/// The contents of a warning.
pub open spec fn warning_view(w: ValidationWarning) -> WarningView {
    (w.message@, match w.field_path {
        Some(p) => Some(p@),
        None => None,
    })
}

/// The corrected entries of the first `n` coercions: a successful one
/// gives its value, a failed one keeps the original text.
pub open spec fn corrected_entries(ds: Seq<CoercionDetail>, n: int) -> Seq<(Seq<char>, Value)>
    decreases n,
{
    if n <= 0 || n > ds.len() {
        seq![]
    } else {
        corrected_entries(ds, n - 1) + if ds[n - 1].success {
            match ds[n - 1].coerced_value {
                Some(v) => seq![(ds[n - 1].field_name@, v)],
                None => seq![],
            }
        } else {
            seq![(ds[n - 1].field_name@, json_string_value(ds[n - 1].original_value@))]
        }
    }
}

/// How many of the first `n` coercions succeeded.
pub open spec fn successes(ds: Seq<CoercionDetail>, n: int) -> nat
    decreases n,
{
    if n <= 0 || n > ds.len() {
        0
    } else {
        successes(ds, n - 1) + if ds[n - 1].success { 1nat } else { 0nat }
    }
}

fn is_blank(s: &str) -> (r: bool)
    ensures
        r == blank(s@),
{
    let cs = chars_of(s);
    let mut i: usize = 0;
    while i < cs.len()
        invariant
            i <= cs@.len(),
            cs@ == s@,
            forall|k: int| 0 <= k < i ==> is_white_space(#[trigger] s@[k]),
        decreases cs@.len() - i,
    {
        if !white_space(cs[i]) {
            return false;
        }
        i = i + 1;
    }
    true
}

fn class_present(es: &Vec<Extraction>, f: &str) -> (r: bool)
    ensures
        r == has_class(es@, f@),
{
    let mut i: usize = 0;
    while i < es.len()
        invariant
            i <= es@.len(),
            forall|k: int| 0 <= k < i ==> (#[trigger] es@[k]).extraction_class@ != f@,
        decreases es@.len() - i,
    {
        if strings_equal(es[i].extraction_class.as_str(), f) {
            return true;
        }
        i = i + 1;
    }
    false
}

fn push_extraction_warnings(warnings: &mut Vec<ValidationWarning>, e: &Extraction)
    ensures
        final(warnings)@.map_values(|w: ValidationWarning| warning_view(w)) == old(warnings)@.map_values(
            |w: ValidationWarning| warning_view(w),
        ) + extraction_warnings(*e),
{
    let ghost before = warnings@.map_values(|w: ValidationWarning| warning_view(w));
    let class = e.extraction_class.as_str();
    if is_blank(e.extraction_text.as_str()) {
        let mut m = String::new();
        push_str(&mut m, "Empty extraction text for field '");
        push_str(&mut m, class);
        push_str(&mut m, "'");
        warnings.push(ValidationWarning { message: m, field_path: Some(class.to_string()) });
    }
    let ghost mid = warnings@.map_values(|w: ValidationWarning| warning_view(w));
    proof {
        assert(mid =~= before + if blank(e.extraction_text@) {
            seq![("Empty extraction text for field '"@ + class@ + "'"@, Some(class@))]
        } else {
            seq![]
        });
    }
    let len = byte_len(e.extraction_text.as_str());
    if len > 1000 {
        let mut m = String::new();
        push_str(&mut m, "Very long extraction text (");
        push_decimal(&mut m, len);
        push_str(&mut m, " chars) for field '");
        push_str(&mut m, class);
        push_str(&mut m, "'");
        warnings.push(ValidationWarning { message: m, field_path: Some(class.to_string()) });
    }
    proof {
        assert(warnings@.map_values(|w: ValidationWarning| warning_view(w)) =~= mid + if len > 1000 {
            seq![("Very long extraction text ("@ + decimal(len as nat) + " chars) for field '"@ + class@ + "'"@, Some(class@))]
        } else {
            seq![]
        });
    }
}

/// Checks extractions against the fields that were asked for. With
/// `require_all_fields`, each expected field that no extraction has as its
/// class is an error; blank and very long texts, and fewer than half as
/// many extractions as fields, give warnings. `coercions` holds the typed
/// readings of the extractions when coercion is on: the successful ones
/// (and the failed ones as text) make the corrected data, and all of them
/// the summary. The result is valid exactly when there is no error.
pub fn validate_extractions(
    extractions: &Vec<Extraction>,
    expected_fields: &Vec<String>,
    require_all_fields: bool,
    coercions: Option<Vec<CoercionDetail>>,
) -> (r: ValidationResult)
    ensures
        r.is_valid == (r.errors@.len() == 0),
        require_all_fields ==> r.errors@.len() == missing_fields(extractions@, expected_fields@, expected_fields@.len() as int).len()
            && forall|i: int| 0 <= i < r.errors@.len() ==> is_missing_error(#[trigger] r.errors@[i], missing_fields(extractions@, expected_fields@, expected_fields@.len() as int)[i]),
        !require_all_fields ==> r.errors@.len() == 0,
        r.warnings@.map_values(|w: ValidationWarning| warning_view(w)) == all_warnings(extractions@, expected_fields@),
        r.raw_output_file is None,
        r.corrected_data == match coercions {
            Some(ds) => if ds@.len() > 0 && successes(ds@, ds@.len() as int) > 0 {
                Some(json_object_value(corrected_entries(ds@, ds@.len() as int)))
            } else {
                None
            },
            None => None,
        },
        match coercions {
            Some(ds) => if ds@.len() > 0 {
                r.coercion_summary matches Some(cs) && cs.successful_coercions == successes(ds@, ds@.len() as int)
                    && cs.failed_coercions == ds@.len() - successes(ds@, ds@.len() as int) && cs.coercion_details == ds
            } else {
                r.coercion_summary is None
            },
            None => r.coercion_summary is None,
        },
{
    let mut errors: Vec<ValidationError> = Vec::new();
    let mut warnings: Vec<ValidationWarning> = Vec::new();
    if require_all_fields {
        let mut i: usize = 0;
        while i < expected_fields.len()
            invariant
                i <= expected_fields@.len(),
                errors@.len() == missing_fields(extractions@, expected_fields@, i as int).len(),
                forall|k: int| 0 <= k < errors@.len() ==> is_missing_error(#[trigger] errors@[k], missing_fields(extractions@, expected_fields@, i as int)[k]),
            decreases expected_fields@.len() - i,
        {
            let f = expected_fields[i].as_str();
            let ghost prev = missing_fields(extractions@, expected_fields@, i as int);
            if !class_present(extractions, f) {
                let mut m = String::new();
                push_str(&mut m, "Required field '");
                push_str(&mut m, f);
                push_str(&mut m, "' is missing");
                errors.push(ValidationError {
                    message: m,
                    field_path: Some(f.to_string()),
                    expected: Some("Present".to_string()),
                    actual: Some("Missing".to_string()),
                });
                proof {
                    let cur = missing_fields(extractions@, expected_fields@, i + 1);
                    assert(cur == prev + seq![f@]);
                    assert forall|k: int| 0 <= k < errors@.len() implies is_missing_error(#[trigger] errors@[k], cur[k]) by {
                        if k < prev.len() {
                            assert(cur[k] == prev[k]);
                        }
                    }
                }
            } else {
                proof {
                    assert(missing_fields(extractions@, expected_fields@, i + 1) =~= prev);
                }
            }
            i = i + 1;
        }
    }
    let mut i: usize = 0;
    proof {
        assert(warnings@.map_values(|w: ValidationWarning| warning_view(w)) =~= seq![]);
    }
    while i < extractions.len()
        invariant
            i <= extractions@.len(),
            warnings@.map_values(|w: ValidationWarning| warning_view(w)) == warnings_upto(extractions@, i as int),
        decreases extractions@.len() - i,
    {
        push_extraction_warnings(&mut warnings, &extractions[i]);
        i = i + 1;
    }
    let n = extractions.len();
    let m = expected_fields.len();
    let ghost wv = warnings@.map_values(|w: ValidationWarning| warning_view(w));
    if n < m / 2 {
        let mut msg = String::new();
        push_str(&mut msg, "Low extraction count: found ");
        push_decimal(&mut msg, n);
        push_str(&mut msg, " but expected around ");
        push_decimal(&mut msg, m);
        warnings.push(ValidationWarning { message: msg, field_path: None });
    }
    proof {
        assert(warnings@.map_values(|w: ValidationWarning| warning_view(w)) =~= all_warnings(extractions@, expected_fields@));
    }
    let (corrected_data, coercion_summary) = match coercions {
        Some(ds) => {
            let mut ok: usize = 0;
            let mut entries: Vec<(String, Value)> = Vec::new();
            let mut k: usize = 0;
            while k < ds.len()
                invariant
                    k <= ds@.len(),
                    ok == successes(ds@, k as int),
                    ok <= k,
                    entries_view(entries@) == corrected_entries(ds@, k as int),
                decreases ds@.len() - k,
            {
                let d = &ds[k];
                let ghost before = entries_view(entries@);
                if d.success {
                    ok = ok + 1;
                    match &d.coerced_value {
                        Some(v) => entries.push((d.field_name.clone(), v.clone())),
                        None => {},
                    }
                } else {
                    entries.push((d.field_name.clone(), json_string(d.original_value.clone())));
                }
                proof {
                    assert(entries_view(entries@) =~= corrected_entries(ds@, k + 1));
                }
                k = k + 1;
            }
            let corrected = if ds.len() > 0 && ok > 0 {
                Some(json_object(entries))
            } else {
                None
            };
            let total = ds.len();
            let summary = if total > 0 {
                Some(CoercionSummary { successful_coercions: ok, failed_coercions: total - ok, coercion_details: ds })
            } else {
                None
            };
            (corrected, summary)
        },
        None => (None, None),
    };
    let is_valid = errors.len() == 0;
    ValidationResult { is_valid, errors, warnings, corrected_data, raw_output_file: None, coercion_summary }
}

} // verus!
