//! Rendering the results of a pipeline: the spans each step highlights in
//! the original text, drawn in layers, and a flattened JSON listing.

use vstd::prelude::*;
use vstd::utf8::*;
use serde_json::Value;
use crate::text::{bytes, byte_len, substr, push_str, lemma_str_valid, decimal, push_decimal};
use crate::data::{Extraction, strings_equal};
use crate::exceptions::{LangExtractError, LangExtractResult};
use crate::schema::{json_as_str, json_str_of, json_string, json_string_value};
use crate::json::{json_bool, json_bool_value, json_number, json_number_value, json_array, json_array_value, json_object, json_object_value, entries_view};
use crate::visualization::ExportConfig;
use crate::templates::{json_pretty, pretty_json};
use crate::pipeline::{PipelineStep, StepResult, attribute_of, find_text};
use crate::chunking::first_occurrence;
use crate::markup::{lacks, visible_text, tags_balanced, lemma_tag, lemma_escaped, lemma_decimal_plain, lemma_lacks_concat, lemma_text_between_split};
use crate::visualization::{html_escape, html_escaped, text_between, find_char_boundary, find_char_boundary_spec, char_floor, escaped_piece, lemma_char_floor};

verus! {

broadcast use vstd::seq::group_seq_axioms;

// ---------------------------------------------------------------------------
// A stable sort on keyed entries.

/// An entry ordered by its first three components; the fourth is carried.
pub type Keyed = (usize, usize, usize, usize);

/// `a` comes no later than `b` in the order of the first three components.
pub open spec fn key_le(a: Keyed, b: Keyed) -> bool {
    a.0 < b.0 || (a.0 == b.0 && (a.1 < b.1 || (a.1 == b.1 && a.2 <= b.2)))
}

/// Where `x` goes in `sorted`, searching from `i`: before the first entry
/// whose key is greater.
pub open spec fn keyed_position(sorted: Seq<Keyed>, x: Keyed, i: int) -> int
    decreases sorted.len() - i,
{
    if i < 0 || i >= sorted.len() {
        sorted.len() as int
    } else if !key_le(sorted[i], x) {
        i
    } else {
        keyed_position(sorted, x, i + 1)
    }
}

/// The entries ordered by key; entries with equal keys keep their order.
pub open spec fn sorted_keyed(s: Seq<Keyed>) -> Seq<Keyed>
    decreases s.len(),
{
    if s.len() == 0 {
        s
    } else {
        let t = sorted_keyed(s.drop_last());
        t.insert(keyed_position(t, s.last(), 0), s.last())
    }
}

proof fn lemma_keyed_position(t: Seq<Keyed>, x: Keyed, i: int)
    requires
        0 <= i <= t.len(),
    ensures
        i <= keyed_position(t, x, i) <= t.len(),
        forall|k: int| i <= k < keyed_position(t, x, i) ==> key_le(#[trigger] t[k], x),
        keyed_position(t, x, i) < t.len() ==> !key_le(t[keyed_position(t, x, i)], x),
    decreases t.len() - i,
{
    if i < t.len() && key_le(t[i], x) {
        lemma_keyed_position(t, x, i + 1);
    }
}

/// The sorted entries are in key order and are the entries of the input.
pub proof fn lemma_sorted_keyed(s: Seq<Keyed>)
    ensures
        sorted_keyed(s).len() == s.len(),
        forall|i: int, j: int| 0 <= i < j < s.len() ==> key_le(#[trigger] sorted_keyed(s)[i], #[trigger] sorted_keyed(s)[j]),
        forall|k: int| 0 <= k < s.len() ==> s.contains(#[trigger] sorted_keyed(s)[k]),
    decreases s.len(),
{
    if s.len() > 0 {
        let t = sorted_keyed(s.drop_last());
        lemma_sorted_keyed(s.drop_last());
        let x = s.last();
        lemma_keyed_position(t, x, 0);
        let p = keyed_position(t, x, 0);
        let r = t.insert(p, x);
        assert(r == sorted_keyed(s));
        assert forall|i: int, j: int| 0 <= i < j < s.len() implies key_le(#[trigger] r[i], #[trigger] r[j]) by {
            if i == p {
                if j - 1 >= p && p < t.len() {
                    assert(!key_le(t[p], x));
                    assert(r[j] == t[j - 1]);
                    if j - 1 > p {
                        assert(key_le(t[p], t[j - 1]));
                    }
                }
            } else if j == p {
                assert(r[i] == t[i]);
                assert(key_le(t[i], x));
            } else if i < p && j < p {
                assert(r[i] == t[i] && r[j] == t[j]);
            } else if i < p && j > p {
                assert(r[i] == t[i] && r[j] == t[j - 1]);
                if i < j - 1 {
                    assert(key_le(t[i], t[j - 1]));
                }
            } else {
                assert(r[i] == t[i - 1] && r[j] == t[j - 1]);
                assert(key_le(t[i - 1], t[j - 1]));
            }
        }
        assert forall|k: int| 0 <= k < s.len() implies s.contains(#[trigger] r[k]) by {
            if k == p {
                assert(s[s.len() - 1] == x);
            } else {
                let q = if k < p { k } else { k - 1 };
                assert(r[k] == t[q]);
                assert(s.drop_last().contains(t[q]));
                let w = choose|w: int| 0 <= w < s.drop_last().len() && s.drop_last()[w] == t[q];
                assert(s[w] == t[q]);
            }
        }
    }
}

/// The entries in key order, entries with equal keys in their first order.
pub fn sort_keyed(v: &Vec<Keyed>) -> (r: Vec<Keyed>)
    ensures
        r@ == sorted_keyed(v@),
{
    let mut sorted: Vec<Keyed> = Vec::new();
    let mut k: usize = 0;
    while k < v.len()
        invariant
            k <= v@.len(),
            sorted@ == sorted_keyed(v@.subrange(0, k as int)),
        decreases v@.len() - k,
    {
        let x = v[k];
        let ghost t = sorted@;
        let mut p: usize = 0;
        while p < sorted.len() && (sorted[p].0 < x.0 || (sorted[p].0 == x.0 && (sorted[p].1 < x.1 || (sorted[p].1
            == x.1 && sorted[p].2 <= x.2))))
            invariant
                p <= sorted@.len(),
                sorted@ == t,
                keyed_position(t, x, 0) == keyed_position(t, x, p as int),
            decreases sorted@.len() - p,
        {
            p = p + 1;
        }
        proof {
            assert(v@.subrange(0, k + 1).drop_last() =~= v@.subrange(0, k as int));
            assert(v@.subrange(0, k + 1).last() == x);
        }
        sorted.insert(p, x);
        k = k + 1;
    }
    proof {
        assert(v@.subrange(0, v@.len() as int) =~= v@);
    }
    sorted
}

// ---------------------------------------------------------------------------
// String leaves of JSON text.

/// The JSON value that a text parses to, if it parses.
pub open spec fn parsed_json(text: Seq<char>) -> Option<Value> {
    match crate::json::json_read(text) {
        Ok(v) => Some(v),
        Err(_) => None,
    }
}

/// The JSON value that a text parses to, if it parses.
pub fn parse_json(text: &str) -> (r: Option<Value>)
    ensures
        r == parsed_json(text@),
{
    match crate::json::json_from_str(text) {
        Ok(v) => Some(v),
        Err(_) => None,
    }
}

/// The entries of a JSON object, in the order the object's map walks them;
/// `None` for a value that is no object.
pub uninterp spec fn object_entries(v: Value) -> Option<Seq<(Seq<char>, Value)>>;

/// `serde_json::Value::as_object`, walked into a list of its entries.
/// Stated: the result is [`object_entries`] of the value.
#[verifier::external_body]
pub(crate) fn json_object_entries(v: &Value) -> (r: Option<Vec<(String, Value)>>)
    ensures
        match r {
            Some(es) => object_entries(*v) == Some(crate::json::entries_view(es@)),
            None => object_entries(*v) is None,
        },
{
    v.as_object().map(|m| m.iter().map(|(k, x)| (k.clone(), x.clone())).collect())
}

/// The items of a JSON array; `None` for a value that is no array.
pub uninterp spec fn array_items(v: Value) -> Option<Seq<Value>>;

/// `serde_json::Value::as_array`, copied into a list. Stated: the result
/// is [`array_items`] of the value.
#[verifier::external_body]
pub(crate) fn json_array_items(v: &Value) -> (r: Option<Vec<Value>>)
    ensures
        match r {
            Some(items) => array_items(*v) == Some(items@),
            None => array_items(*v) is None,
        },
{
    v.as_array().map(|a| a.clone())
}

/// How deep the walk over a parsed value goes. `serde_json` refuses to
/// parse text that nests deeper than 128 arrays or objects, so a walk of
/// this depth reaches every value of a parsed text.
pub open spec fn json_walk_depth() -> nat {
    200
}

/// The label of an object entry under `prefix`: the key alone at the top,
/// else the prefix, a colon and the key.
pub open spec fn key_label(prefix: Seq<char>, k: Seq<char>) -> Seq<char> {
    if prefix.len() == 0 { k } else { prefix + ":"@ + k }
}

/// The label of array item `i` under `prefix`: `[i]` at the top, else the
/// prefix, a colon and `[i]`.
pub open spec fn index_label(prefix: Seq<char>, i: nat) -> Seq<char> {
    if prefix.len() == 0 { "["@ + decimal(i) + "]"@ } else { prefix + ":["@ + decimal(i) + "]"@ }
}

/// The string values within a JSON value, each with the path of labels
/// that leads to it from `prefix`, depth first, to `fuel` levels.
pub open spec fn string_leaves(v: Value, prefix: Seq<char>, fuel: nat) -> Seq<(Seq<char>, Seq<char>)>
    decreases fuel, 0nat,
{
    if fuel == 0 {
        seq![]
    } else {
        match json_str_of(v) {
            Some(s) => seq![(prefix, s)],
            None => match object_entries(v) {
                Some(es) => entry_leaves(es, prefix, (fuel - 1) as nat, es.len() as int),
                None => match array_items(v) {
                    Some(items) => item_leaves(items, prefix, (fuel - 1) as nat, items.len() as int),
                    None => seq![],
                },
            },
        }
    }
}

/// The string leaves of the first `n` object entries.
pub open spec fn entry_leaves(es: Seq<(Seq<char>, Value)>, prefix: Seq<char>, fuel: nat, n: int) -> Seq<(Seq<char>, Seq<char>)>
    decreases fuel, 1nat, n,
{
    if n <= 0 || n > es.len() {
        seq![]
    } else {
        entry_leaves(es, prefix, fuel, n - 1) + string_leaves(es[n - 1].1, key_label(prefix, es[n - 1].0), fuel)
    }
}

/// The string leaves of the first `n` array items.
pub open spec fn item_leaves(items: Seq<Value>, prefix: Seq<char>, fuel: nat, n: int) -> Seq<(Seq<char>, Seq<char>)>
    decreases fuel, 1nat, n,
{
    if n <= 0 || n > items.len() {
        seq![]
    } else {
        item_leaves(items, prefix, fuel, n - 1) + string_leaves(items[n - 1], index_label(prefix, (n - 1) as nat), fuel)
    }
}

fn label_for_key(prefix: &str, k: &str) -> (r: String)
    ensures
        r@ == key_label(prefix@, k@),
{
    let mut r = String::new();
    if byte_len(prefix) == 0 {
        proof {
            crate::text::lemma_chars_of(prefix);
            lemma_empty_text(prefix);
        }
        push_str(&mut r, k);
    } else {
        proof {
            lemma_nonempty_text(prefix);
        }
        push_str(&mut r, prefix);
        push_str(&mut r, ":");
        push_str(&mut r, k);
    }
    r
}

fn label_for_index(prefix: &str, i: usize) -> (r: String)
    ensures
        r@ == index_label(prefix@, i as nat),
{
    let mut r = String::new();
    if byte_len(prefix) == 0 {
        proof {
            lemma_empty_text(prefix);
        }
        push_str(&mut r, "[");
    } else {
        proof {
            lemma_nonempty_text(prefix);
        }
        push_str(&mut r, prefix);
        push_str(&mut r, ":[");
    }
    push_decimal(&mut r, i);
    push_str(&mut r, "]");
    r
}

proof fn lemma_empty_text(s: &str)
    requires
        bytes(s).len() == 0,
    ensures
        s@.len() == 0,
{
    crate::text::lemma_chars_of(s);
    assert(bytes(s) =~= Seq::<u8>::empty());
    assert(encode_utf8(Seq::<char>::empty()) =~= Seq::<u8>::empty()) by {
        reveal_with_fuel(encode_utf8, 1);
    }
    encode_utf8_decode_utf8(Seq::<char>::empty());
}

proof fn lemma_nonempty_text(s: &str)
    requires
        bytes(s).len() != 0,
    ensures
        s@.len() != 0,
{
    if s@.len() == 0 {
        assert(s@ =~= Seq::<char>::empty());
        assert(encode_utf8(Seq::<char>::empty()) =~= Seq::<u8>::empty()) by {
            reveal_with_fuel(encode_utf8, 1);
        }
    }
}

/// Appends the string leaves of `v` under `prefix` to `out`, as
/// [`string_leaves`] lists them.
fn collect_string_leaves(prefix: &str, v: &Value, fuel: usize, out: &mut Vec<(String, String)>)
    ensures
        pairs_view(final(out)@) == pairs_view(old(out)@) + string_leaves(*v, prefix@, fuel as nat),
    decreases fuel, 0nat,
{
    if fuel == 0 {
        proof {
            assert(pairs_view(out@) + seq![] =~= pairs_view(out@));
        }
        return;
    }
    match json_as_str(v) {
        Some(s) => {
            let ghost before = out@;
            out.push((prefix.to_string(), s));
            proof {
                assert(pairs_view(out@) =~= pairs_view(before) + seq![(prefix@, json_str_of(*v)->0)]);
            }
        },
        None => match json_object_entries(v) {
            Some(es) => {
                let ghost before = out@;
                let ghost esv = crate::json::entries_view(es@);
                let mut i: usize = 0;
                while i < es.len()
                    invariant
                        i <= es@.len(),
                        fuel > 0,
                        esv == crate::json::entries_view(es@),
                        pairs_view(out@) == pairs_view(before) + entry_leaves(esv, prefix@, (fuel - 1) as nat, i as int),
                    decreases es@.len() - i,
                {
                    let label = label_for_key(prefix, es[i].0.as_str());
                    proof {
                        assert(esv[i as int] == (es@[i as int].0@, es@[i as int].1));
                    }
                    collect_string_leaves(label.as_str(), &es[i].1, fuel - 1, out);
                    i = i + 1;
                }
            },
            None => match json_array_items(v) {
                Some(items) => {
                    let ghost before = out@;
                    let mut i: usize = 0;
                    while i < items.len()
                        invariant
                            i <= items@.len(),
                            fuel > 0,
                            pairs_view(out@) == pairs_view(before) + item_leaves(items@, prefix@, (fuel - 1) as nat, i as int),
                        decreases items@.len() - i,
                    {
                        let label = label_for_index(prefix, i);
                        collect_string_leaves(label.as_str(), &items[i], fuel - 1, out);
                        i = i + 1;
                    }
                },
                None => {
                    proof {
                        assert(pairs_view(out@) + seq![] =~= pairs_view(out@));
                    }
                },
            },
        },
    }
}

/// The texts of a list of string pairs.
pub open spec fn pairs_view(v: Seq<(String, String)>) -> Seq<(Seq<char>, Seq<char>)> {
    v.map_values(|p: (String, String)| (p.0@, p.1@))
}

/// The string leaves of the JSON that `text` parses to, labelled from
/// `class`; `None` when the text is no JSON.
pub open spec fn json_text_leaves(class: Seq<char>, text: Seq<char>) -> Option<Seq<(Seq<char>, Seq<char>)>> {
    match parsed_json(text) {
        Some(v) => Some(string_leaves(v, class, json_walk_depth())),
        None => None,
    }
}

/// The string values within the JSON that `text` holds, each labelled by
/// the path that leads to it, starting from `class`; `None` when the text
/// does not parse as JSON.
pub fn nested_json_leaves(class: &str, text: &str) -> (r: Option<Vec<(String, String)>>)
    ensures
        match r {
            Some(v) => json_text_leaves(class@, text@) == Some(pairs_view(v@)),
            None => json_text_leaves(class@, text@) is None,
        },
{
    match parse_json(text) {
        Some(v) => {
            let mut out: Vec<(String, String)> = Vec::new();
            proof {
                assert(pairs_view(out@) =~= seq![]);
            }
            collect_string_leaves(class, &v, 200, &mut out);
            proof {
                assert(seq![] + string_leaves(v, class@, 200) =~= string_leaves(v, class@, 200));
            }
            Some(out)
        },
        None => None,
    }
}

// ---------------------------------------------------------------------------
// Spans of a pipeline's extractions.

/// A stretch of the original text that one step's extraction covers.
#[derive(Debug, Clone)]
pub struct LayeredSpan {
    /// First byte of the stretch.
    pub start: usize,
    /// One past its last byte.
    pub end: usize,
    /// The class of the extraction.
    pub class_name: String,
    /// The text of the extraction.
    pub text: String,
    /// The position of the step that produced it.
    pub step_index: usize,
    /// The step whose extraction was this step's input, if any.
    pub parent_step_id: Option<String>,
    /// The class of that input extraction.
    pub parent_class: Option<String>,
    /// The text of that input extraction.
    pub parent_text: Option<String>,
}

/// The contents of a layered span as plain values.
pub type SpanView = (usize, usize, Seq<char>, Seq<char>, usize, Option<Seq<char>>, Option<Seq<char>>, Option<Seq<char>>);

/// The text of an optional string.
pub open spec fn opt_text(o: Option<String>) -> Option<Seq<char>> {
    match o {
        Some(s) => Some(s@),
        None => None,
    }
}

/// The contents of a layered span.
pub open spec fn span_view(s: LayeredSpan) -> SpanView {
    (s.start, s.end, s.class_name@, s.text@, s.step_index, opt_text(s.parent_step_id), opt_text(s.parent_class), opt_text(
        s.parent_text,
    ))
}

/// The contents of a list of layered spans.
pub open spec fn spans_view(v: Seq<LayeredSpan>) -> Seq<SpanView> {
    v.map_values(|s: LayeredSpan| span_view(s))
}

/// The string held by an extraction's attribute `key`, if it holds one.
pub open spec fn attr_text(e: Extraction, key: Seq<char>) -> Option<Seq<char>> {
    match attribute_of(e.attributes, key) {
        Some(v) => json_str_of(v),
        None => None,
    }
}

/// A span of extraction `e` over `start..end` with the given class and text.
pub open spec fn span_of(start: int, end: int, class: Seq<char>, text: Seq<char>, si: usize, e: Extraction) -> SpanView {
    (start as usize, end as usize, class, text, si, attr_text(e, "parent_step_id"@), attr_text(e, "parent_class"@), attr_text(
        e,
        "parent_text"@,
    ))
}

/// The span of an extraction itself: its own position when known,
/// non-empty and within the text; else the first place its text occurs.
pub open spec fn main_span(e: Extraction, si: usize, b: Seq<u8>) -> Seq<SpanView> {
    let own = match e.char_interval {
        Some(ci) => match (ci.start_pos, ci.end_pos) {
            (Some(st), Some(en)) => st < en && en <= b.len(),
            _ => false,
        },
        None => false,
    };
    if own {
        seq![span_of(e.char_interval->0.start_pos->0 as int, e.char_interval->0.end_pos->0 as int, e.extraction_class@, e.extraction_text@, si, e)]
    } else {
        let t = encode_utf8(e.extraction_text@);
        match first_occurrence(b, t, 0) {
            Some(f) => if f + t.len() <= b.len() {
                seq![span_of(f, f + t.len(), e.extraction_class@, e.extraction_text@, si, e)]
            } else {
                seq![]
            },
            None => seq![],
        }
    }
}

/// The spans of the first `n` string leaves: each non-empty string that
/// occurs in the text, at its first occurrence, labelled by its path.
pub open spec fn leaf_spans(leaves: Seq<(Seq<char>, Seq<char>)>, e: Extraction, si: usize, b: Seq<u8>, n: int) -> Seq<SpanView>
    decreases n,
{
    if n <= 0 || n > leaves.len() {
        seq![]
    } else {
        let (class, s) = leaves[n - 1];
        let t = encode_utf8(s);
        let this = if s.len() > 0 {
            match first_occurrence(b, t, 0) {
                Some(f) => if f + t.len() <= b.len() {
                    seq![span_of(f, f + t.len(), class, s, si, e)]
                } else {
                    seq![]
                },
                None => seq![],
            }
        } else {
            seq![]
        };
        leaf_spans(leaves, e, si, b, n - 1) + this
    }
}

/// The spans of one extraction: its own span, then, when nested JSON is
/// expanded and its text is JSON, those of the strings within.
pub open spec fn extraction_spans(e: Extraction, si: usize, b: Seq<u8>, expand: bool) -> Seq<SpanView> {
    main_span(e, si, b) + if expand {
        match json_text_leaves(e.extraction_class@, e.extraction_text@) {
            Some(leaves) => leaf_spans(leaves, e, si, b, leaves.len() as int),
            None => seq![],
        }
    } else {
        seq![]
    }
}

/// The last position among the first `n` steps of a step with identifier `id`.
pub open spec fn last_step_from(steps: Seq<PipelineStep>, id: Seq<char>, n: int) -> Option<int>
    decreases n,
{
    if n <= 0 || n > steps.len() {
        None
    } else if steps[n - 1].id@ == id {
        Some(n - 1)
    } else {
        last_step_from(steps, id, n - 1)
    }
}

/// The colour index of the step with identifier `id`: the last position of
/// a step with that identifier, 0 when there is none.
pub open spec fn step_color(steps: Seq<PipelineStep>, id: Seq<char>) -> usize {
    match last_step_from(steps, id, steps.len() as int) {
        Some(k) => k as usize,
        None => 0,
    }
}

/// The spans of the first `n` extractions of a step result.
pub open spec fn result_spans(es: Seq<Extraction>, si: usize, b: Seq<u8>, expand: bool, n: int) -> Seq<SpanView>
    decreases n,
{
    if n <= 0 || n > es.len() {
        seq![]
    } else {
        result_spans(es, si, b, expand, n - 1) + extraction_spans(es[n - 1], si, b, expand)
    }
}

/// The spans of the first `n` step results, each coloured by its step.
pub open spec fn pipeline_spans(steps: Seq<PipelineStep>, rs: Seq<StepResult>, b: Seq<u8>, expand: bool, n: int) -> Seq<SpanView>
    decreases n,
{
    if n <= 0 || n > rs.len() {
        seq![]
    } else {
        pipeline_spans(steps, rs, b, expand, n - 1) + result_spans(
            rs[n - 1].extractions@,
            step_color(steps, rs[n - 1].step_id@),
            b,
            expand,
            rs[n - 1].extractions@.len() as int,
        )
    }
}

fn step_color_of(steps: &Vec<PipelineStep>, id: &str) -> (r: usize)
    ensures
        r == step_color(steps@, id@),
{
    let mut found: Option<usize> = None;
    let mut i: usize = 0;
    while i < steps.len()
        invariant
            i <= steps@.len(),
            match found {
                Some(k) => last_step_from(steps@, id@, i as int) == Some(k as int),
                None => last_step_from(steps@, id@, i as int) is None,
            },
        decreases steps@.len() - i,
    {
        if strings_equal(steps[i].id.as_str(), id) {
            found = Some(i);
        }
        i = i + 1;
    }
    match found {
        Some(k) => k,
        None => 0,
    }
}

fn attribute_text(e: &Extraction, key: &str) -> (r: Option<String>)
    ensures
        opt_text(r) == attr_text(*e, key@),
{
    match &e.attributes {
        Some(a) => match crate::data::get_entry(a, key) {
            Some(v) => json_as_str(v),
            None => None,
        },
        None => None,
    }
}

fn make_span(start: usize, end: usize, class_name: String, text: String, step_index: usize, e: &Extraction) -> (s: LayeredSpan)
    ensures
        span_view(s) == span_of(start as int, end as int, class_name@, text@, step_index, *e),
{
    LayeredSpan {
        start,
        end,
        class_name,
        text,
        step_index,
        parent_step_id: attribute_text(e, "parent_step_id"),
        parent_class: attribute_text(e, "parent_class"),
        parent_text: attribute_text(e, "parent_text"),
    }
}


fn push_extraction_spans(e: &Extraction, si: usize, text: &str, expand: bool, out: &mut Vec<LayeredSpan>)
    ensures
        spans_view(final(out)@) == spans_view(old(out)@) + extraction_spans(*e, si, bytes(text), expand),
{
    let n = byte_len(text);
    let ghost b = bytes(text);
    let ghost before = out@;
    let mut added = false;
    match &e.char_interval {
        Some(interval) => match (interval.start_pos, interval.end_pos) {
            (Some(start), Some(end)) => {
                if start < end && end <= n {
                    let sp = make_span(start, end, e.extraction_class.clone(), e.extraction_text.clone(), si, e);
                    out.push(sp);
                    added = true;
                }
            },
            _ => {},
        },
        None => {},
    }
    if !added {
        match find_text(text, e.extraction_text.as_str()) {
            Some(found) => {
                proof {
                    crate::chunking::lemma_first_occurrence_bounds(b, encode_utf8(e.extraction_text@), 0);
                }
                let end = found + byte_len(e.extraction_text.as_str());
                if end <= n {
                    let sp = make_span(found, end, e.extraction_class.clone(), e.extraction_text.clone(), si, e);
                    out.push(sp);
                }
            },
            None => {},
        }
    }
    proof {
        assert(spans_view(out@) =~= spans_view(before) + main_span(*e, si, b));
    }
    let ghost mid = out@;
    if expand {
        match nested_json_leaves(e.extraction_class.as_str(), e.extraction_text.as_str()) {
            Some(pairs) => {
                let ghost leaves = pairs_view(pairs@);
                let mut k: usize = 0;
                while k < pairs.len()
                    invariant
                        k <= pairs@.len(),
                        leaves == pairs_view(pairs@),
                        b == bytes(text),
                        n == b.len(),
                        spans_view(out@) == spans_view(mid) + leaf_spans(leaves, *e, si, b, k as int),
                    decreases pairs@.len() - k,
                {
                    let ghost pre = out@;
                    let (class_name, s) = (&pairs[k].0, &pairs[k].1);
                    proof {
                        assert(leaves[k as int] == (class_name@, s@));
                    }
                    let sv: &str = s.as_str();
                    if byte_len(sv) != 0 {
                        proof {
                            lemma_nonempty_text(sv);
                        }
                        match find_text(text, s.as_str()) {
                            Some(found) => {
                                proof {
                                    crate::chunking::lemma_first_occurrence_bounds(b, encode_utf8(s@), 0);
                                }
                                let end = found + byte_len(s.as_str());
                                if end <= n {
                                    let sp = make_span(found, end, class_name.clone(), s.clone(), si, e);
                                    let ghost spv = span_view(sp);
                                    out.push(sp);
                                    proof {
                                        assert(spans_view(out@) =~= spans_view(pre).push(spv));
                                    }
                                }
                            },
                            None => {},
                        }
                    } else {
                        proof {
                            lemma_empty_text(sv);
                        }
                    }
                    proof {
                        let (lc, ls) = leaves[k as int];
                        assert(lc == class_name@ && ls == s@);
                        assert(leaf_spans(leaves, *e, si, b, k + 1) == leaf_spans(leaves, *e, si, b, k as int) + (if ls.len() > 0 {
                            match first_occurrence(b, encode_utf8(ls), 0) {
                                Some(f) => if f + encode_utf8(ls).len() <= b.len() {
                                    seq![span_of(f, f + encode_utf8(ls).len(), lc, ls, si, *e)]
                                } else {
                                    seq![]
                                },
                                None => seq![],
                            }
                        } else {
                            seq![]
                        }));
                        assert(spans_view(out@) =~= spans_view(mid) + leaf_spans(leaves, *e, si, b, k + 1));
                    }
                    k = k + 1;
                }
            },
            None => {},
        }
    }
    proof {
        assert(spans_view(out@) =~= spans_view(before) + extraction_spans(*e, si, b, expand));
    }
}

/// The spans that the steps' extractions cover in the original text, step
/// result by step result, as [`pipeline_spans`] describes; each is coloured
/// by the position of its step.
pub fn build_layered_spans(
    steps: &Vec<PipelineStep>,
    step_results: &Vec<StepResult>,
    original_text: &str,
    expand_nested_json: bool,
) -> (r: Vec<LayeredSpan>)
    ensures
        spans_view(r@) == pipeline_spans(steps@, step_results@, bytes(original_text), expand_nested_json, step_results@.len() as int),
{
    let mut spans: Vec<LayeredSpan> = Vec::new();
    let mut i: usize = 0;
    proof {
        assert(spans_view(spans@) =~= seq![]);
    }
    while i < step_results.len()
        invariant
            i <= step_results@.len(),
            spans_view(spans@) == pipeline_spans(steps@, step_results@, bytes(original_text), expand_nested_json, i as int),
        decreases step_results@.len() - i,
    {
        let step_res = &step_results[i];
        let si = step_color_of(steps, step_res.step_id.as_str());
        let ghost base = spans_view(spans@);
        let mut k: usize = 0;
        while k < step_res.extractions.len()
            invariant
                k <= step_res.extractions@.len(),
                spans_view(spans@) == base + result_spans(step_res.extractions@, si, bytes(original_text), expand_nested_json, k as int),
            decreases step_res.extractions@.len() - k,
        {
            push_extraction_spans(&step_res.extractions[k], si, original_text, expand_nested_json, &mut spans);
            proof {
                assert(base + result_spans(step_res.extractions@, si, bytes(original_text), expand_nested_json, k + 1)
                    =~= base + result_spans(step_res.extractions@, si, bytes(original_text), expand_nested_json, k as int)
                    + extraction_spans(step_res.extractions@[k as int], si, bytes(original_text), expand_nested_json));
            }
            k = k + 1;
        }
        i = i + 1;
    }
    spans
}

// ---------------------------------------------------------------------------
// Legend and list of extractions.

/// The legend entry of a step: its colour badge, its number and its
/// escaped name.
pub open spec fn legend_item(idx: usize, name: Seq<char>) -> Seq<char> {
    "<span class=\"legend-item\"><span class=\"badge step-"@ + decimal(idx as nat) + "\"></span>Step "@ + decimal(
        (idx + 1) as nat,
    ) + ": "@ + html_escaped(name) + "</span>"@
}

/// The legend entries of the first `n` steps, each coloured as
/// [`step_color`] says.
pub open spec fn legend_items(steps: Seq<PipelineStep>, n: int) -> Seq<char>
    decreases n,
{
    if n <= 0 || n > steps.len() {
        seq![]
    } else {
        legend_items(steps, n - 1) + legend_item(step_color(steps, steps[n - 1].id@), steps[n - 1].name@)
    }
}

proof fn lemma_step_color_bound(steps: Seq<PipelineStep>, id: Seq<char>, n: int)
    requires
        0 <= n <= steps.len(),
    ensures
        last_step_from(steps, id, n) matches Some(k) ==> 0 <= k < n,
    decreases n,
{
    if n > 0 && steps[n - 1].id@ != id {
        lemma_step_color_bound(steps, id, n - 1);
    }
}

/// The legend of a pipeline's steps, one entry per step.
pub fn build_legend_html(steps: &Vec<PipelineStep>) -> (r: String)
    ensures
        r@ == "<div class=\"legend\">"@ + legend_items(steps@, steps@.len() as int) + "</div>"@,
{
    let mut items = String::new();
    let mut i: usize = 0;
    while i < steps.len()
        invariant
            i <= steps@.len(),
            items@ == legend_items(steps@, i as int),
        decreases steps@.len() - i,
    {
        let step = &steps[i];
        let idx = step_color_of(steps, step.id.as_str());
        proof {
            lemma_step_color_bound(steps@, step.id@, steps@.len() as int);
        }
        let ghost before = items@;
        push_str(&mut items, "<span class=\"legend-item\"><span class=\"badge step-");
        push_decimal(&mut items, idx);
        push_str(&mut items, "\"></span>Step ");
        push_decimal(&mut items, idx + 1);
        push_str(&mut items, ": ");
        let name = html_escape(step.name.as_str());
        push_str(&mut items, name.as_str());
        push_str(&mut items, "</span>");
        proof {
            assert(items@ =~= before + legend_item(idx, step.name@));
        }
        i = i + 1;
    }
    let mut r = String::new();
    push_str(&mut r, "<div class=\"legend\">");
    push_str(&mut r, items.as_str());
    push_str(&mut r, "</div>");
    r
}

/// Where a list entry names the input it came from: its class and text,
/// when both are known and not empty.
pub open spec fn parent_info(s: LayeredSpan) -> Seq<char> {
    match (s.parent_class, s.parent_text) {
        (Some(pc), Some(pt)) => if pc@.len() > 0 && pt@.len() > 0 {
            " (parent: ["@ + html_escaped(pc@) + "] "@ + html_escaped(pt@) + ")"@
        } else {
            seq![]
        },
        _ => seq![],
    }
}

/// The list entry of a span of step `g`.
pub open spec fn list_item(g: usize, s: LayeredSpan) -> Seq<char> {
    "<li><span class=\\\"step-"@ + decimal(g as nat) + " extraction-highlight\\\">["@ + html_escaped(s.class_name@) + "] "@
        + html_escaped(s.text@) + parent_info(s) + "</span></li>"@
}

/// The list entries of the spans of step `g` among the first `n`.
pub open spec fn group_items(spans: Seq<LayeredSpan>, g: usize, n: int) -> Seq<char>
    decreases n,
{
    if n <= 0 || n > spans.len() {
        seq![]
    } else {
        group_items(spans, g, n - 1) + if spans[n - 1].step_index == g {
            list_item(g, spans[n - 1])
        } else {
            seq![]
        }
    }
}

/// The section of step `g`: a heading and the list of its spans.
pub open spec fn group_html(spans: Seq<LayeredSpan>, g: usize) -> Seq<char> {
    "<h3>Step "@ + decimal((g + 1) as nat) + "</h3>"@ + "<ul>"@ + group_items(spans, g, spans.len() as int) + "</ul>"@
}

/// The least step position of the first `n` spans that is at least `lo`.
pub open spec fn least_step_from(spans: Seq<LayeredSpan>, lo: int, n: int) -> Option<usize>
    decreases n,
{
    if n <= 0 || n > spans.len() {
        None
    } else {
        let rest = least_step_from(spans, lo, n - 1);
        let x = spans[n - 1].step_index;
        if x >= lo && (rest matches Some(m) ==> x < m) {
            Some(x)
        } else {
            rest
        }
    }
}

/// The sections of the steps whose position is at least `lo`, in order of
/// position.
pub open spec fn groups_from(spans: Seq<LayeredSpan>, lo: int) -> Seq<char>
    decreases usize::MAX + 1 - lo,
    via groups_from_decreases
{
    if lo < 0 || lo > usize::MAX {
        seq![]
    } else {
        match least_step_from(spans, lo, spans.len() as int) {
            Some(g) => group_html(spans, g) + groups_from(spans, g + 1),
            None => seq![],
        }
    }
}

proof fn lemma_least_step(spans: Seq<LayeredSpan>, lo: int, n: int)
    requires
        0 <= n <= spans.len(),
    ensures
        least_step_from(spans, lo, n) matches Some(g) ==> g >= lo,
    decreases n,
{
    if n > 0 {
        lemma_least_step(spans, lo, n - 1);
    }
}

#[via_fn]
proof fn groups_from_decreases(spans: Seq<LayeredSpan>, lo: int) {
    lemma_least_step(spans, lo, spans.len() as int);
}

/// The extractions of a pipeline listed by step: for each step position
/// that some span has, in increasing order, a heading and the list of that
/// step's spans in their order.
pub fn build_extractions_list_html(spans: &Vec<LayeredSpan>) -> (r: String)
    requires
        forall|i: int| 0 <= i < spans@.len() ==> (#[trigger] spans@[i]).step_index < usize::MAX,
    ensures
        r@ == groups_from(spans@, 0),
{
    let mut html = String::new();
    let mut lo: usize = 0;
    let mut done = false;
    while !done
        invariant
            forall|i: int| 0 <= i < spans@.len() ==> (#[trigger] spans@[i]).step_index < usize::MAX,
            done ==> html@ == groups_from(spans@, 0),
            !done ==> groups_from(spans@, 0) == html@ + groups_from(spans@, lo as int),
        decreases usize::MAX + 1 - lo, if done { 0int } else { 1int },
    {
        match least_step_at_least(spans, lo) {
            Some(g) => {
                let ghost before = html@;
                push_group(&mut html, spans, g);
                proof {
                    assert(groups_from(spans@, lo as int) == group_html(spans@, g) + groups_from(spans@, g + 1));
                    assert(html@ + groups_from(spans@, g + 1) =~= before + (group_html(spans@, g) + groups_from(spans@, g + 1)));
                }
                lo = g + 1;
            },
            None => {
                proof {
                    assert(html@ + groups_from(spans@, lo as int) =~= html@);
                }
                done = true;
            },
        }
    }
    html
}

/// The least step position at or after `lo` among the spans.
fn least_step_at_least(spans: &Vec<LayeredSpan>, lo: usize) -> (r: Option<usize>)
    requires
        forall|i: int| 0 <= i < spans@.len() ==> (#[trigger] spans@[i]).step_index < usize::MAX,
    ensures
        r == least_step_from(spans@, lo as int, spans@.len() as int),
        r matches Some(g) ==> lo <= g < usize::MAX,
{
    let mut least: Option<usize> = None;
    let mut i: usize = 0;
    while i < spans.len()
        invariant
            i <= spans@.len(),
            least == least_step_from(spans@, lo as int, i as int),
            least matches Some(m) ==> m < usize::MAX,
            forall|i: int| 0 <= i < spans@.len() ==> (#[trigger] spans@[i]).step_index < usize::MAX,
        decreases spans@.len() - i,
    {
        let x = spans[i].step_index;
        let better = match least {
            Some(m) => x < m,
            None => true,
        };
        if x >= lo && better {
            least = Some(x);
        }
        i = i + 1;
    }
    proof {
        lemma_least_step(spans@, lo as int, spans@.len() as int);
    }
    least
}

fn push_group(html: &mut String, spans: &Vec<LayeredSpan>, g: usize)
    requires
        g < usize::MAX,
    ensures
        final(html)@ == old(html)@ + group_html(spans@, g),
{
    push_str(html, "<h3>Step ");
    push_decimal(html, g + 1);
    push_str(html, "</h3>");
    push_str(html, "<ul>");
    let ghost head = html@;
    let mut k: usize = 0;
    while k < spans.len()
        invariant
            k <= spans@.len(),
            html@ == head + group_items(spans@, g, k as int),
        decreases spans@.len() - k,
    {
        let s = &spans[k];
        if s.step_index == g {
            push_list_item(html, g, s);
        }
        k = k + 1;
    }
    push_str(html, "</ul>");
    proof {
        assert(final(html)@ =~= old(html)@ + group_html(spans@, g));
    }
}

spec fn byte_len_spec(s: &str) -> nat {
    bytes(s).len()
}

// ---------------------------------------------------------------------------
// Highlighting the layers.

/// The opening tag of a layered highlight: the step's colour, and the
/// class, text and parent class as data attributes, all escaped.
pub open spec fn layer_open_tag(s: LayeredSpan) -> Seq<char> {
    "<span class=\"extraction-highlight step-"@ + decimal(s.step_index as nat) + "\" data-class=\""@ + html_escaped(
        s.class_name@,
    ) + "\" data-text=\""@ + html_escaped(s.text@) + "\" data-parent-class=\""@ + html_escaped(
        match s.parent_class {
            Some(p) => p@,
            None => seq![],
        },
    ) + "\">"@
}

/// A layered highlight holding `body`, escaped.
pub open spec fn layer_span_html(s: LayeredSpan, body: Seq<char>) -> Seq<char> {
    layer_open_tag(s) + html_escaped(body) + "</span>"@
}

/// The span covers a non-empty stretch within a text of `len` bytes.
pub open spec fn span_fits(s: LayeredSpan, len: int) -> bool {
    s.start < s.end && s.end <= len
}

/// The fitting spans among the first `n`, as entries ordered by start and
/// end that carry the span's position.
pub open spec fn span_entries(spans: Seq<LayeredSpan>, len: int, n: int) -> Seq<Keyed>
    decreases n,
{
    if n <= 0 || n > spans.len() {
        seq![]
    } else if span_fits(spans[n - 1], len) {
        span_entries(spans, len, n - 1).push((spans[n - 1].start, spans[n - 1].end, 0usize, (n - 1) as usize))
    } else {
        span_entries(spans, len, n - 1)
    }
}

/// The start and end events of the fitting spans among the first `n`:
/// ordered by position, starts before ends, then by step.
pub open spec fn span_events(spans: Seq<LayeredSpan>, len: int, n: int) -> Seq<Keyed>
    decreases n,
{
    if n <= 0 || n > spans.len() {
        seq![]
    } else if span_fits(spans[n - 1], len) {
        let s = spans[n - 1];
        span_events(spans, len, n - 1).push((s.start, 0usize, s.step_index, (n - 1) as usize)).push(
            (s.end, 1usize, s.step_index, (n - 1) as usize),
        )
    } else {
        span_events(spans, len, n - 1)
    }
}

/// The escaped text between two byte offsets.
pub open spec fn escaped_between(b: Seq<u8>, from: int, to: int) -> Seq<char> {
    html_escaped(text_between(b, from, to))
}

/// The escaped text between two byte offsets when it is not empty.
pub open spec fn plain_between(b: Seq<u8>, from: int, to: int) -> Seq<char> {
    if to > from { escaped_between(b, from, to) } else { seq![] }
}

/// The HTML of the text from `last` on with the entries from the `j`th on
/// highlighted, leaving out an entry that starts before the end of the last
/// one drawn, or that holds no whole character once its ends are moved back
/// to character boundaries.
pub open spec fn render_flat(b: Seq<u8>, spans: Seq<LayeredSpan>, f: Seq<Keyed>, j: int, last: int) -> Seq<char>
    decreases f.len() - j,
{
    if j < 0 || j >= f.len() {
        if last < b.len() { escaped_between(b, last, b.len() as int) } else { seq![] }
    } else {
        let st = f[j].0 as int;
        let en = f[j].1 as int;
        if st < last {
            render_flat(b, spans, f, j + 1, last)
        } else {
            let ss = find_char_boundary_spec(b, st);
            let se = find_char_boundary_spec(b, en);
            let before = if ss > last { escaped_between(b, last, ss) } else { seq![] };
            if ss < se {
                before + layer_span_html(spans[f[j].3 as int], text_between(b, ss, se)) + render_flat(b, spans, f, j + 1, se)
            } else {
                render_flat(b, spans, f, j + 1, last)
            }
        }
    }
}

/// `k` closing tags.
pub open spec fn close_tags(k: nat) -> Seq<char>
    decreases k,
{
    if k == 0 { seq![] } else { close_tags((k - 1) as nat) + "</span>"@ }
}

/// The last position below `n` at which `open` holds `x`.
pub open spec fn last_index_of(open: Seq<usize>, x: usize, n: int) -> Option<int>
    decreases n,
{
    if n <= 0 || n > open.len() {
        None
    } else if open[n - 1] == x {
        Some(n - 1)
    } else {
        last_index_of(open, x, n - 1)
    }
}

/// Opening tags for the spans that `open` holds from position `from` up to
/// position `n`.
pub open spec fn open_tags(spans: Seq<LayeredSpan>, open: Seq<usize>, from: int, n: int) -> Seq<char>
    decreases n - from,
{
    if from < 0 || n <= from || n > open.len() {
        seq![]
    } else {
        open_tags(spans, open, from, n - 1) + layer_open_tag(spans[open[n - 1] as int])
    }
}

/// The HTML of the text from `cursor` on, walking the events from the
/// `j`th on with the spans in `open` still open: each event writes the text
/// since the cursor; a start then opens its span's tag; an end, if its span
/// is open, closes the tags from the span's last opening on and opens again
/// the tags of the spans that were opened after it. At the end the rest of
/// the text and a closing tag for each span still open.
pub open spec fn render_layered(b: Seq<u8>, spans: Seq<LayeredSpan>, ev: Seq<Keyed>, j: int, cursor: int, open: Seq<usize>) -> Seq<char>
    decreases ev.len() - j,
{
    if j < 0 || j >= ev.len() {
        plain_between(b, cursor, b.len() as int) + close_tags(open.len())
    } else {
        event_output(b, spans, ev[j], cursor, open) + render_layered(
            b,
            spans,
            ev,
            j + 1,
            find_char_boundary_spec(b, ev[j].0 as int),
            event_open(open, ev[j]),
        )
    }
}

/// What one event writes: the text since the cursor, then for a start the
/// opening tag of its span, for an end [`end_output`].
pub open spec fn event_output(b: Seq<u8>, spans: Seq<LayeredSpan>, e: Keyed, cursor: int, open: Seq<usize>) -> Seq<char> {
    let sp = find_char_boundary_spec(b, e.0 as int);
    plain_between(b, cursor, sp) + if e.1 == 0 {
        layer_open_tag(spans[e.3 as int])
    } else {
        end_output(spans, open, e.3)
    }
}

/// The open spans after an event: a start opens its span, an end closes
/// its span's last opening.
pub open spec fn event_open(open: Seq<usize>, e: Keyed) -> Seq<usize> {
    if e.1 == 0 { open.push(e.3) } else { open_after(open, e.3) }
}

/// The HTML of a text with layered highlights: without overlaps, the spans
/// in order of start and end as [`render_flat`] draws them; with overlaps,
/// their events in order as [`render_layered`] draws them.
pub open spec fn layered_html(text: Seq<char>, spans: Seq<LayeredSpan>, allow_overlaps: bool) -> Seq<char> {
    let b = encode_utf8(text);
    if !allow_overlaps {
        render_flat(b, spans, sorted_keyed(span_entries(spans, b.len() as int, spans.len() as int)), 0, 0)
    } else {
        render_layered(b, spans, sorted_keyed(span_events(spans, b.len() as int, spans.len() as int)), 0, 0, seq![])
    }
}

proof fn lemma_span_entries(spans: Seq<LayeredSpan>, len: int, n: int)
    requires
        0 <= n <= spans.len(),
    ensures
        forall|k: int| 0 <= k < span_entries(spans, len, n).len() ==> (#[trigger] span_entries(spans, len, n)[k]).3 < n,
        forall|k: int| 0 <= k < span_events(spans, len, n).len() ==> (#[trigger] span_events(spans, len, n)[k]).3 < n,
    decreases n,
{
    if n > 0 {
        lemma_span_entries(spans, len, n - 1);
        let e0 = span_entries(spans, len, n - 1);
        let v0 = span_events(spans, len, n - 1);
        assert forall|k: int| 0 <= k < span_entries(spans, len, n).len() implies (#[trigger] span_entries(spans, len, n)[k]).3 < n by {
            if k < e0.len() {
                assert(span_entries(spans, len, n)[k] == e0[k]);
            }
        }
        assert forall|k: int| 0 <= k < span_events(spans, len, n).len() implies (#[trigger] span_events(spans, len, n)[k]).3 < n by {
            if k < v0.len() {
                assert(span_events(spans, len, n)[k] == v0[k]);
            }
        }
    }
}

/// The sorted entries keep the bound on the positions they carry.
proof fn lemma_sorted_bound(s: Seq<Keyed>, n: int)
    requires
        forall|k: int| 0 <= k < s.len() ==> (#[trigger] s[k]).3 < n,
    ensures
        forall|k: int| 0 <= k < s.len() ==> (#[trigger] sorted_keyed(s)[k]).3 < n,
{
    lemma_sorted_keyed(s);
    assert forall|k: int| 0 <= k < s.len() implies (#[trigger] sorted_keyed(s)[k]).3 < n by {
        assert(s.contains(sorted_keyed(s)[k]));
        let w = choose|w: int| 0 <= w < s.len() && s[w] == sorted_keyed(s)[k];
        assert(s[w].3 < n);
    }
}

/// The nearest boundary at or before a position is the greatest boundary
/// that is not past it.
pub(crate) proof fn lemma_char_floor_max(b: Seq<u8>, i: int, x: int)
    requires
        0 <= x <= i,
        is_char_boundary(b, x),
    ensures
        x <= char_floor(b, i),
    decreases i,
{
    if i > 0 && !is_char_boundary(b, i) {
        lemma_char_floor_max(b, i - 1, x);
    }
}

/// Moving positions back to boundaries keeps their order.
proof fn lemma_boundary_monotone(b: Seq<u8>, p: int, q: int)
    requires
        valid_utf8(b),
        0 <= p <= q,
    ensures
        find_char_boundary_spec(b, p) <= find_char_boundary_spec(b, q),
{
    if p < b.len() {
        lemma_char_floor(b, p);
        if q < b.len() {
            lemma_char_floor_max(b, q, char_floor(b, p));
        }
    }
}

fn push_open_tag(out: &mut String, s: &LayeredSpan)
    ensures
        final(out)@ == old(out)@ + layer_open_tag(*s),
{
    push_str(out, "<span class=\"extraction-highlight step-");
    push_decimal(out, s.step_index);
    push_str(out, "\" data-class=\"");
    let c = html_escape(s.class_name.as_str());
    push_str(out, c.as_str());
    push_str(out, "\" data-text=\"");
    let t = html_escape(s.text.as_str());
    push_str(out, t.as_str());
    push_str(out, "\" data-parent-class=\"");
    let p = match &s.parent_class {
        Some(pc) => html_escape(pc.as_str()),
        None => html_escape(""),
    };
    push_str(out, p.as_str());
    push_str(out, "\">");
    proof {
        reveal_strlit("");
        assert(""@ =~= Seq::<char>::empty());
        assert(final(out)@ =~= old(out)@ + layer_open_tag(*s));
    }
}

fn push_layer_span(out: &mut String, s: &LayeredSpan, text: &str, from: usize, to: usize)
    requires
        from <= to <= bytes(text).len(),
        is_char_boundary(bytes(text), from as int),
        is_char_boundary(bytes(text), to as int),
    ensures
        final(out)@ == old(out)@ + layer_span_html(*s, text_between(bytes(text), from as int, to as int)),
{
    push_open_tag(out, s);
    let body = escaped_piece(text, from, to);
    push_str(out, body.as_str());
    push_str(out, "</span>");
    proof {
        assert(final(out)@ =~= old(out)@ + layer_span_html(*s, text_between(bytes(text), from as int, to as int)));
    }
}

fn close_n(out: &mut String, k: usize)
    ensures
        final(out)@ == old(out)@ + close_tags(k as nat),
{
    let mut i: usize = 0;
    while i < k
        invariant
            i <= k,
            out@ == old(out)@ + close_tags(i as nat),
        decreases k - i,
    {
        push_str(out, "</span>");
        proof {
            assert(close_tags((i + 1) as nat) == close_tags(i as nat) + "</span>"@);
        }
        i = i + 1;
    }
}

/// Highlights the spans in `text` as HTML, as [`layered_html`] describes:
/// without overlaps, each span that starts before the end of the last one
/// drawn is left out; with overlaps, spans nest and are closed and reopened
/// around each other, and the text is written once, with the tags around it
/// nesting properly (see [`lemma_layered_html_shows_text`]).
pub fn highlight_text_html_with_layers(text: &str, spans: &Vec<LayeredSpan>, allow_overlaps: bool) -> (r: LangExtractResult<String>)
    ensures
        r matches Ok(s) && s@ == layered_html(text@, spans@, allow_overlaps),
{
    let n = byte_len(text);
    let ghost b = bytes(text);
    proof {
        lemma_str_valid(text);
        is_char_boundary_start_end_of_seq(b);
    }
    if !allow_overlaps {
        let mut entries: Vec<Keyed> = Vec::new();
        let mut i: usize = 0;
        while i < spans.len()
            invariant
                i <= spans@.len(),
                n == b.len(),
                b == bytes(text),
                entries@ == span_entries(spans@, n as int, i as int),
            decreases spans@.len() - i,
        {
            let sp = &spans[i];
            if sp.start < sp.end && sp.end <= n {
                entries.push((sp.start, sp.end, 0, i));
            }
            i = i + 1;
        }
        proof {
            lemma_span_entries(spans@, n as int, spans@.len() as int);
            lemma_sorted_bound(entries@, spans@.len() as int);
        }
        let sorted = sort_keyed(&entries);
        proof {
            lemma_sorted_keyed(entries@);
        }
        let ghost all = sorted@;
        let mut result = String::new();
        let mut last_pos: usize = 0;
        let mut last_end: usize = 0;
        let mut j: usize = 0;
        while j < sorted.len()
            invariant
                b == bytes(text),
                valid_utf8(b),
                n == b.len(),
                all == sorted@,
                j <= sorted@.len(),
                last_pos == last_end,
                last_pos <= n,
                is_char_boundary(b, last_pos as int),
                forall|k: int| 0 <= k < sorted@.len() ==> (#[trigger] sorted@[k]).3 < spans@.len(),
                render_flat(b, spans@, all, 0, 0) == result@ + render_flat(b, spans@, all, j as int, last_pos as int),
            decreases sorted@.len() - j,
        {
            let (start, end, _, idx) = sorted[j];
            if start >= last_end {
                let safe_start = find_char_boundary(text, start);
                let safe_end = find_char_boundary(text, end);
                if safe_start < safe_end {
                    let ghost before = result@;
                    if safe_start > last_pos {
                        let gap = escaped_piece(text, last_pos, safe_start);
                        push_str(&mut result, gap.as_str());
                    }
                    let ghost gap_part = result@.subrange(before.len() as int, result@.len() as int);
                    proof {
                        assert(result@ =~= before + gap_part);
                    }
                    push_layer_span(&mut result, &spans[idx], text, safe_start, safe_end);
                    last_pos = safe_end;
                    last_end = safe_end;
                }
            }
            j = j + 1;
        }
        if last_pos < n {
            let rest = escaped_piece(text, last_pos, n);
            push_str(&mut result, rest.as_str());
        }
        proof {
            assert(result@ =~= render_flat(b, spans@, all, 0, 0));
        }
        return Ok(result);
    }
    let mut events: Vec<Keyed> = Vec::new();
    let mut i: usize = 0;
    while i < spans.len()
        invariant
            i <= spans@.len(),
            n == b.len(),
            b == bytes(text),
            events@ == span_events(spans@, n as int, i as int),
        decreases spans@.len() - i,
    {
        let sp = &spans[i];
        if sp.start < sp.end && sp.end <= n {
            events.push((sp.start, 0, sp.step_index, i));
            events.push((sp.end, 1, sp.step_index, i));
        }
        i = i + 1;
    }
    proof {
        lemma_span_entries(spans@, n as int, spans@.len() as int);
        lemma_sorted_bound(events@, spans@.len() as int);
    }
    let sorted = sort_keyed(&events);
    proof {
        lemma_sorted_keyed(events@);
    }
    let ghost ev = sorted@;
    let mut result = String::new();
    let mut cursor: usize = 0;
    let mut open: Vec<usize> = Vec::new();
    let mut j: usize = 0;
    while j < sorted.len()
        invariant
            b == bytes(text),
            valid_utf8(b),
            n == b.len(),
            ev == sorted@,
            j <= ev.len(),
            cursor <= n,
            is_char_boundary(b, cursor as int),
            j > 0 ==> cursor as int == find_char_boundary_spec(b, ev[j - 1].0 as int),
            j == 0 ==> cursor == 0,
            forall|a: int, c: int| 0 <= a < c < ev.len() ==> key_le(#[trigger] ev[a], #[trigger] ev[c]),
            forall|k: int| 0 <= k < ev.len() ==> (#[trigger] ev[k]).3 < spans@.len(),
            forall|k: int| 0 <= k < open@.len() ==> (#[trigger] open@[k]) < spans@.len(),
            render_layered(b, spans@, ev, 0, 0, seq![]) == result@ + render_layered(b, spans@, ev, j as int, cursor as int, open@),
        decreases ev.len() - j,
    {
        let e = sorted[j];
        proof {
            assert(e == ev[j as int]);
            if j > 0 {
                assert(key_le(ev[j - 1], ev[j as int]));
                lemma_boundary_monotone(b, ev[j - 1].0 as int, e.0 as int);
            } else {
                lemma_boundary_monotone(b, 0, e.0 as int);
            }
        }
        cursor = layered_event(&mut result, &mut open, cursor, e, text, spans);
        j = j + 1;
    }
    if n > cursor {
        let rest = escaped_piece(text, cursor, n);
        push_str(&mut result, rest.as_str());
    }
    close_n(&mut result, open.len());
    proof {
        assert(result@ =~= render_layered(b, spans@, ev, 0, 0, seq![]));
    }
    Ok(result)
}

proof fn lemma_last_index(open: Seq<usize>, x: usize, n: int)
    requires
        0 <= n <= open.len(),
    ensures
        last_index_of(open, x, n) matches Some(p) ==> 0 <= p < n,
    decreases n,
{
    if n > 0 && open[n - 1] != x {
        lemma_last_index(open, x, n - 1);
    }
}

/// The output of an end event for span `idx`: closing tags from its last
/// opening on, then opening tags again for the spans opened after it.
pub open spec fn end_output(spans: Seq<LayeredSpan>, open: Seq<usize>, idx: usize) -> Seq<char> {
    match last_index_of(open, idx, open.len() as int) {
        Some(p) => close_tags((open.len() - p) as nat) + open_tags(spans, open.remove(p), p, open.len() - 1),
        None => seq![],
    }
}

/// The open spans after an end event for span `idx`.
pub open spec fn open_after(open: Seq<usize>, idx: usize) -> Seq<usize> {
    match last_index_of(open, idx, open.len() as int) {
        Some(p) => open.remove(p),
        None => open,
    }
}

fn close_span(out: &mut String, open: &mut Vec<usize>, idx: usize, spans: &Vec<LayeredSpan>)
    requires
        forall|k: int| 0 <= k < old(open)@.len() ==> (#[trigger] old(open)@[k]) < spans@.len(),
    ensures
        final(out)@ == old(out)@ + end_output(spans@, old(open)@, idx),
        final(open)@ == open_after(old(open)@, idx),
        forall|k: int| 0 <= k < final(open)@.len() ==> (#[trigger] final(open)@[k]) < spans@.len(),
{
    let ghost open0 = open@;
    let mut found: Option<usize> = None;
    let mut q: usize = 0;
    while q < open.len()
        invariant
            q <= open@.len(),
            open@ == open0,
            match found {
                Some(p) => last_index_of(open0, idx, q as int) == Some(p as int),
                None => last_index_of(open0, idx, q as int) is None,
            },
        decreases open@.len() - q,
    {
        if open[q] == idx {
            found = Some(q);
        }
        q = q + 1;
    }
    match found {
        Some(p) => {
            proof {
                lemma_last_index(open0, idx, open0.len() as int);
            }
            close_n(out, open.len() - p);
            open.remove(p);
            let ghost mid = out@;
            let mut w: usize = p;
            while w < open.len()
                invariant
                    p <= w <= open@.len(),
                    open@ == open0.remove(p as int),
                    forall|k: int| 0 <= k < open@.len() ==> (#[trigger] open@[k]) < spans@.len(),
                    out@ == mid + open_tags(spans@, open@, p as int, w as int),
                decreases open@.len() - w,
            {
                push_open_tag(out, &spans[open[w]]);
                w = w + 1;
            }
            proof {
                assert forall|k: int| 0 <= k < open@.len() implies (#[trigger] open@[k]) < spans@.len() by {
                    assert(open@[k] == open0.remove(p as int)[k]);
                }
            }
        },
        None => {
            proof {
                assert(out@ =~= out@ + Seq::<char>::empty());
            }
        },
    }
}

fn layered_event(out: &mut String, open: &mut Vec<usize>, cursor: usize, e: Keyed, text: &str, spans: &Vec<LayeredSpan>) -> (c: usize)
    requires
        cursor <= find_char_boundary_spec(bytes(text), e.0 as int),
        is_char_boundary(bytes(text), cursor as int),
        e.3 < spans@.len(),
        forall|k: int| 0 <= k < old(open)@.len() ==> (#[trigger] old(open)@[k]) < spans@.len(),
    ensures
        c == find_char_boundary_spec(bytes(text), e.0 as int),
        c <= bytes(text).len(),
        is_char_boundary(bytes(text), c as int),
        final(out)@ == old(out)@ + event_output(bytes(text), spans@, e, cursor as int, old(open)@),
        final(open)@ == event_open(old(open)@, e),
        forall|k: int| 0 <= k < final(open)@.len() ==> (#[trigger] final(open)@[k]) < spans@.len(),
{
    let (pos, flag, _, idx) = e;
    let safe_pos = find_char_boundary(text, pos);
    if safe_pos > cursor {
        let gap = escaped_piece(text, cursor, safe_pos);
        push_str(out, gap.as_str());
    }
    proof {
        assert(out@ == old(out)@ + plain_between(bytes(text), cursor as int, safe_pos as int));
    }
    if flag == 0 {
        push_open_tag(out, &spans[idx]);
        open.push(idx);
    } else {
        close_span(out, open, idx, spans);
    }
    proof {
        assert(final(out)@ =~= old(out)@ + event_output(bytes(text), spans@, e, cursor as int, old(open)@));
    }
    safe_pos
}

// ---------------------------------------------------------------------------
// What the highlighted HTML shows.

/// An opening tag of a layered highlight shows nothing and opens one level.
proof fn lemma_open_tag_reads(s: LayeredSpan, r: Seq<char>, d: int)
    ensures
        visible_text(layer_open_tag(s) + r) == visible_text(r),
        tags_balanced(layer_open_tag(s) + r, d) == tags_balanced(r, d + 1),
{
    let l1 = "<span class=\"extraction-highlight step-"@;
    let l2 = "\" data-class=\""@;
    let l3 = "\" data-text=\""@;
    let l4 = "\" data-parent-class=\""@;
    let l5 = "\">"@;
    reveal_strlit("<span class=\"extraction-highlight step-");
    reveal_strlit("\" data-class=\"");
    reveal_strlit("\" data-text=\"");
    reveal_strlit("\" data-parent-class=\"");
    reveal_strlit("\">");
    let pc = match s.parent_class {
        Some(p) => p@,
        None => seq![],
    };
    let dn = decimal(s.step_index as nat);
    let e1 = html_escaped(s.class_name@);
    let e2 = html_escaped(s.text@);
    let e3 = html_escaped(pc);
    lemma_decimal_plain(s.step_index as nat);
    lemma_escaped(s.class_name@, seq![], 0);
    lemma_escaped(s.text@, seq![], 0);
    lemma_escaped(pc, seq![], 0);
    let head = l1.drop_first();
    assert(lacks(head, '>'));
    assert(lacks(l2, '>'));
    assert(lacks(l3, '>'));
    assert(lacks(l4, '>'));
    assert(lacks(seq!['"'], '>'));
    lemma_lacks_concat(head, dn, '>');
    lemma_lacks_concat(head + dn, l2, '>');
    lemma_lacks_concat(head + dn + l2, e1, '>');
    lemma_lacks_concat(head + dn + l2 + e1, l3, '>');
    lemma_lacks_concat(head + dn + l2 + e1 + l3, e2, '>');
    lemma_lacks_concat(head + dn + l2 + e1 + l3 + e2, l4, '>');
    lemma_lacks_concat(head + dn + l2 + e1 + l3 + e2 + l4, e3, '>');
    lemma_lacks_concat(head + dn + l2 + e1 + l3 + e2 + l4 + e3, seq!['"'], '>');
    let inner = head + dn + l2 + e1 + l3 + e2 + l4 + e3 + seq!['"'];
    assert(l1 =~= seq!['<'] + head);
    assert(l5 =~= seq!['"'] + seq!['>']);
    assert(layer_open_tag(s) + r =~= seq!['<'] + inner + seq!['>'] + r);
    assert(inner[0] == 's');
    lemma_tag(inner, r, d);
}

/// Closing tags show nothing; each closes one open level.
proof fn lemma_close_tags_read(k: nat, r: Seq<char>, d: int)
    requires
        0 <= d,
    ensures
        visible_text(close_tags(k) + r) == visible_text(r),
        tags_balanced(close_tags(k) + r, d) == (d >= k && tags_balanced(r, d - k)),
    decreases k,
{
    if k == 0 {
        assert(close_tags(k) + r =~= r);
    } else {
        reveal_strlit("</span>");
        let inner = seq!['/', 's', 'p', 'a', 'n'];
        let r1 = "</span>"@ + r;
        assert(r1 =~= seq!['<'] + inner + seq!['>'] + r);
        lemma_tag(inner, r, d - k + 1);
        lemma_close_tags_read((k - 1) as nat, r1, d);
        assert(close_tags(k) + r =~= close_tags((k - 1) as nat) + r1);
    }
}

/// Opening tags again show nothing; each opens one level.
proof fn lemma_open_tags_read(spans: Seq<LayeredSpan>, open: Seq<usize>, from: int, n: int, r: Seq<char>, d: int)
    requires
        0 <= from <= n <= open.len(),
    ensures
        visible_text(open_tags(spans, open, from, n) + r) == visible_text(r),
        tags_balanced(open_tags(spans, open, from, n) + r, d) == tags_balanced(r, d + n - from),
    decreases n - from,
{
    if n == from {
        assert(open_tags(spans, open, from, n) + r =~= r);
    } else {
        let t = layer_open_tag(spans[open[n - 1] as int]);
        lemma_open_tag_reads(spans[open[n - 1] as int], r, d + n - 1 - from);
        lemma_open_tags_read(spans, open, from, n - 1, t + r, d);
        assert(open_tags(spans, open, from, n) + r =~= open_tags(spans, open, from, n - 1) + (t + r));
    }
}

/// The escaped text between two positions shows that text.
proof fn lemma_plain_reads(b: Seq<u8>, a: int, z: int, r: Seq<char>, d: int)
    requires
        0 <= a <= z <= b.len(),
    ensures
        visible_text(plain_between(b, a, z) + r) == text_between(b, a, z) + visible_text(r),
        tags_balanced(plain_between(b, a, z) + r, d) == tags_balanced(r, d),
{
    if z > a {
        lemma_escaped(text_between(b, a, z), r, d);
    } else {
        assert(b.subrange(a, z) =~= Seq::<u8>::empty());
        assert(text_between(b, a, z) =~= Seq::<char>::empty());
        assert(plain_between(b, a, z) + r =~= r);
        assert(text_between(b, a, z) + visible_text(r) =~= visible_text(r));
    }
}

/// Moved back to a boundary, a position is a boundary within the text.
proof fn lemma_boundary_of(b: Seq<u8>, x: int)
    requires
        valid_utf8(b),
        0 <= x,
    ensures
        0 <= find_char_boundary_spec(b, x) <= b.len(),
        find_char_boundary_spec(b, x) <= x,
        is_char_boundary(b, find_char_boundary_spec(b, x)),
{
    if x >= b.len() {
        is_char_boundary_start_end_of_seq(b);
    } else {
        lemma_char_floor(b, x);
    }
}

/// From any cursor on, the layered rendering shows the rest of the text,
/// and its tags nest from as many levels as there are spans open.
proof fn lemma_render_layered_reads(b: Seq<u8>, spans: Seq<LayeredSpan>, ev: Seq<Keyed>, j: int, cursor: int, open: Seq<usize>)
    requires
        valid_utf8(b),
        0 <= cursor <= b.len(),
        is_char_boundary(b, cursor),
        0 <= j <= ev.len(),
        forall|x: int, y: int| 0 <= x < y < ev.len() ==> key_le(#[trigger] ev[x], #[trigger] ev[y]),
        j < ev.len() ==> cursor <= find_char_boundary_spec(b, ev[j].0 as int),
    ensures
        visible_text(render_layered(b, spans, ev, j, cursor, open)) == text_between(b, cursor, b.len() as int),
        tags_balanced(render_layered(b, spans, ev, j, cursor, open), open.len() as int),
    decreases ev.len() - j,
{
    let k = open.len() as int;
    is_char_boundary_start_end_of_seq(b);
    if j >= ev.len() {
        lemma_close_tags_read(open.len(), seq![], k);
        assert(close_tags(open.len()) + Seq::<char>::empty() =~= close_tags(open.len()));
        lemma_plain_reads(b, cursor, b.len() as int, close_tags(open.len()), k);
        assert(text_between(b, cursor, b.len() as int) + Seq::<char>::empty() =~= text_between(b, cursor, b.len() as int));
    } else {
        let e = ev[j];
        let sp = find_char_boundary_spec(b, e.0 as int);
        lemma_boundary_of(b, e.0 as int);
        if j + 1 < ev.len() {
            assert(key_le(ev[j], ev[j + 1]));
            lemma_boundary_monotone(b, e.0 as int, ev[j + 1].0 as int);
        }
        let next = event_open(open, e);
        lemma_render_layered_reads(b, spans, ev, j + 1, sp, next);
        let rest = render_layered(b, spans, ev, j + 1, sp, next);
        let tags = if e.1 == 0 { layer_open_tag(spans[e.3 as int]) } else { end_output(spans, open, e.3) };
        if e.1 == 0 {
            lemma_open_tag_reads(spans[e.3 as int], rest, k);
        } else {
            match last_index_of(open, e.3, k) {
                Some(p) => {
                    lemma_last_index(open, e.3, k);
                    let again = open_tags(spans, open.remove(p), p, k - 1);
                    lemma_open_tags_read(spans, open.remove(p), p, k - 1, rest, p);
                    lemma_close_tags_read((k - p) as nat, again + rest, k);
                    assert(tags + rest =~= close_tags((k - p) as nat) + (again + rest));
                },
                None => {
                    assert(tags + rest =~= rest);
                },
            }
        }
        lemma_plain_reads(b, cursor, sp, tags + rest, k);
        assert(render_layered(b, spans, ev, j, cursor, open) =~= plain_between(b, cursor, sp) + (tags + rest));
        lemma_text_between_split(b, cursor, sp, b.len() as int);
    }
}

/// From position `last` on, the rendering without overlaps shows the rest
/// of the text, and its tags nest.
proof fn lemma_render_flat_reads(b: Seq<u8>, spans: Seq<LayeredSpan>, f: Seq<Keyed>, j: int, last: int)
    requires
        valid_utf8(b),
        0 <= last <= b.len(),
        is_char_boundary(b, last),
        0 <= j,
    ensures
        visible_text(render_flat(b, spans, f, j, last)) == text_between(b, last, b.len() as int),
        tags_balanced(render_flat(b, spans, f, j, last), 0),
    decreases f.len() - j,
{
    is_char_boundary_start_end_of_seq(b);
    if j >= f.len() {
        lemma_plain_reads(b, last, b.len() as int, seq![], 0);
        assert(plain_between(b, last, b.len() as int) + Seq::<char>::empty() =~= render_flat(b, spans, f, j, last));
        assert(text_between(b, last, b.len() as int) + Seq::<char>::empty() =~= text_between(b, last, b.len() as int));
    } else {
        let st = f[j].0 as int;
        let en = f[j].1 as int;
        if st < last {
            lemma_render_flat_reads(b, spans, f, j + 1, last);
        } else {
            let ss = find_char_boundary_spec(b, st);
            let se = find_char_boundary_spec(b, en);
            lemma_boundary_of(b, st);
            lemma_boundary_of(b, en);
            if st < b.len() {
                lemma_char_floor_max(b, st, last);
            }
            let before = if ss > last { escaped_between(b, last, ss) } else { seq![] };
            assert(before == plain_between(b, last, ss));
            if ss < se {
                let s = spans[f[j].3 as int];
                let rest = render_flat(b, spans, f, j + 1, se);
                lemma_render_flat_reads(b, spans, f, j + 1, se);
                let close_inner = seq!['/', 's', 'p', 'a', 'n'];
                reveal_strlit("</span>");
                assert("</span>"@ + rest =~= seq!['<'] + close_inner + seq!['>'] + rest);
                lemma_tag(close_inner, rest, 1);
                let body = text_between(b, ss, se);
                lemma_escaped(body, "</span>"@ + rest, 1);
                lemma_open_tag_reads(s, html_escaped(body) + ("</span>"@ + rest), 0);
                let mid = layer_open_tag(s) + (html_escaped(body) + ("</span>"@ + rest));
                assert(layer_span_html(s, body) + rest =~= mid);
                lemma_plain_reads(b, last, ss, mid, 0);
                assert(render_flat(b, spans, f, j, last) =~= before + mid);
                lemma_text_between_split(b, last, ss, b.len() as int);
                lemma_text_between_split(b, ss, se, b.len() as int);
                assert(text_between(b, last, ss) + (body + text_between(b, se, b.len() as int)) =~= text_between(
                    b,
                    last,
                    ss,
                ) + body + text_between(b, se, b.len() as int));
            } else {
                lemma_render_flat_reads(b, spans, f, j + 1, last);
            }
        }
    }
}

/// The highlighted HTML shows the text exactly once, whether or not
/// overlaps are allowed: leaving out its tags and turning its entities back
/// into characters gives the text. Its tags nest properly: every tag that
/// opens is closed, and no tag closes one that is not open.
pub proof fn lemma_layered_html_shows_text(text: Seq<char>, spans: Seq<LayeredSpan>, allow_overlaps: bool)
    ensures
        visible_text(layered_html(text, spans, allow_overlaps)) == text,
        tags_balanced(layered_html(text, spans, allow_overlaps), 0),
{
    let b = encode_utf8(text);
    encode_utf8_valid_utf8(text);
    encode_utf8_decode_utf8(text);
    is_char_boundary_start_end_of_seq(b);
    assert(b.subrange(0, b.len() as int) =~= b);
    if allow_overlaps {
        let evs = span_events(spans, b.len() as int, spans.len() as int);
        let ev = sorted_keyed(evs);
        lemma_sorted_keyed(evs);
        if ev.len() > 0 {
            lemma_boundary_of(b, ev[0].0 as int);
        }
        lemma_render_layered_reads(b, spans, ev, 0, 0, seq![]);
    } else {
        let f = sorted_keyed(span_entries(spans, b.len() as int, spans.len() as int));
        lemma_render_flat_reads(b, spans, f, 0, 0);
    }
}

fn push_list_item(html: &mut String, g: usize, s: &LayeredSpan)
    ensures
        final(html)@ == old(html)@ + list_item(g, *s),
{
    push_str(html, "<li><span class=\\\"step-");
    push_decimal(html, g);
    push_str(html, " extraction-highlight\\\">[");
    let c = html_escape(s.class_name.as_str());
    push_str(html, c.as_str());
    push_str(html, "] ");
    let t = html_escape(s.text.as_str());
    push_str(html, t.as_str());
    let ghost mid = html@;
    match (&s.parent_class, &s.parent_text) {
        (Some(pc), Some(pt)) => {
            let pcs: &str = pc.as_str();
            let pts: &str = pt.as_str();
            if byte_len(pcs) != 0 && byte_len(pts) != 0 {
                proof {
                    lemma_nonempty_text(pcs);
                    lemma_nonempty_text(pts);
                }
                push_str(html, " (parent: [");
                let a = html_escape(pcs);
                push_str(html, a.as_str());
                push_str(html, "] ");
                let b = html_escape(pts);
                push_str(html, b.as_str());
                push_str(html, ")");
            } else {
                proof {
                    if byte_len_spec(pcs) == 0 {
                        lemma_empty_text(pcs);
                    } else {
                        lemma_empty_text(pts);
                    }
                }
            }
        },
        _ => {},
    }
    proof {
        assert(html@.subrange(mid.len() as int, html@.len() as int) =~= parent_info(*s)) by {
            assert(html@ =~= mid + html@.subrange(mid.len() as int, html@.len() as int));
        }
    }
    push_str(html, "</span></li>");
    proof {
        assert(final(html)@ =~= old(html)@ + list_item(g, *s));
    }
}

// ---------------------------------------------------------------------------
// The pipeline page.

/// The start of the pipeline page, up to its title.
pub const PAGE_HEAD: &'static str = "<!DOCTYPE html>\n<html lang=\"en\">\n<head>\n    <meta charset=\"UTF-8\">\n    <meta name=\"viewport\" content=\"width=device-width, initial-scale=1.0\">\n    <title>";

/// The page between the title element and the heading.
pub const PAGE_TITLE_TO_H1: &'static str = "</title>\n    <style>\n        body { font-family: -apple-system, BlinkMacSystemFont, 'Segoe UI', Roboto, sans-serif; max-width: 1200px; margin: 0 auto; padding: 20px; background: #f8fafc; color: #334155; }\n        .container { background: white; border-radius: 12px; box-shadow: 0 4px 6px -1px rgba(0, 0, 0, 0.1); overflow: hidden; }\n        .header { background: linear-gradient(135deg, #0ea5e9 0%, #6366f1 100%); color: white; padding: 30px; text-align: center; }\n        .header h1 { margin: 0; font-size: 2.2em; font-weight: 400; }\n        .content { padding: 30px; }\n        .section { margin-bottom: 32px; }\n        .section h2 { color: #1e293b; border-bottom: 2px solid #e2e8f0; padding-bottom: 10px; margin-bottom: 16px; }\n        .document-text { background: #f1f5f9; border-radius: 8px; padding: 16px; font-family: 'Monaco', 'Menlo', monospace; line-height: 1.6; white-space: pre-wrap; position: relative; }\n        .legend { display: flex; gap: 12px; flex-wrap: wrap; margin-bottom: 12px; }\n        .legend-item { display: inline-flex; align-items: center; gap: 8px; padding: 6px 10px; border: 1px solid #e2e8f0; border-radius: 6px; background: #fff; }\n        .badge { width: 12px; height: 12px; border-radius: 3px; display: inline-block; }\n        .extraction-highlight { border-radius: 3px; padding: 1px 2px; cursor: pointer; }\n        .step-0 { background: rgba(59, 130, 246, 0.2); border: 1px solid rgba(59, 130, 246, 0.4); }\n        .step-1 { background: rgba(16, 185, 129, 0.2); border: 1px solid rgba(16, 185, 129, 0.4); }\n        .step-2 { background: rgba(234, 179, 8, 0.2); border: 1px solid rgba(234, 179, 8, 0.5); }\n        .step-3 { background: rgba(244, 63, 94, 0.2); border: 1px solid rgba(244, 63, 94, 0.4); }\n        .step-4 { background: rgba(99, 102, 241, 0.2); border: 1px solid rgba(99, 102, 241, 0.4); }\n    </style>\n</head>\n<body>\n    <div class=\"container\">\n        <div class=\"header\">\n            <h1>";

/// The page after the heading, up to the legend.
pub const PAGE_AFTER_H1: &'static str = "</h1>\n        </div>\n        <div class=\"content\">\n            <div class=\"section\">\n                <h2>📄 Document Text</h2>\n";

/// The opening of the highlighted document text.
pub const PAGE_TEXT_OPEN: &'static str = "                <div class=\"document-text\">";

/// The page between the document text and the list of extractions.
pub const PAGE_LIST_OPEN: &'static str = "</div>\n            </div>\n            <div class=\"section\">\n                <h2>🎯 Extractions by Step</h2>\n                <div>\n";

/// The end of the page.
pub const PAGE_TAIL: &'static str = "                </div>\n            </div>\n        </div>\n    </div>\n</body>\n</html>\n";

/// The pipeline page around its title, legend, highlighted text and list.
pub open spec fn pipeline_page(title: Seq<char>, legend: Seq<char>, body: Seq<char>, list: Seq<char>) -> Seq<char> {
    PAGE_HEAD@ + title + PAGE_TITLE_TO_H1@ + title + PAGE_AFTER_H1@ + legend + PAGE_TEXT_OPEN@ + body + PAGE_LIST_OPEN@ + list
        + PAGE_TAIL@
}

/// The entries of the first `n` spans ordered by start and end.
pub open spec fn position_entries(spans: Seq<LayeredSpan>, n: int) -> Seq<Keyed>
    decreases n,
{
    if n <= 0 || n > spans.len() {
        seq![]
    } else {
        position_entries(spans, n - 1).push((spans[n - 1].start, spans[n - 1].end, 0usize, (n - 1) as usize))
    }
}

/// The spans in order of start, then end; equal spans keep their order.
pub open spec fn by_position(spans: Seq<LayeredSpan>) -> Seq<LayeredSpan> {
    sorted_keyed(position_entries(spans, spans.len() as int)).map_values(|k: Keyed| spans[k.3 as int])
}

/// The title of a page, or `default` when none is set.
pub open spec fn title_or(title: Option<String>, default: Seq<char>) -> Seq<char> {
    match title {
        Some(t) => t@,
        None => default,
    }
}

/// The legend of the steps, when it is shown.
pub open spec fn legend_part(steps: Seq<PipelineStep>, show: bool) -> Seq<char> {
    if show {
        "<div class=\"legend\">"@ + legend_items(steps, steps.len() as int) + "</div>"@
    } else {
        seq![]
    }
}

/// The pipeline page of a set of spans.
pub open spec fn pipeline_html(steps: Seq<PipelineStep>, spans: Seq<LayeredSpan>, text: Seq<char>, config: ExportConfig) -> Seq<char> {
    let sorted = by_position(spans);
    pipeline_page(
        title_or(config.title, "LangExtract Pipeline Results"@),
        legend_part(steps, config.show_pipeline_legend),
        layered_html(text, sorted, config.allow_overlapping_highlights),
        groups_from(sorted, 0),
    )
}

proof fn lemma_position_entries(spans: Seq<LayeredSpan>, n: int)
    requires
        0 <= n <= spans.len(),
    ensures
        forall|k: int| 0 <= k < position_entries(spans, n).len() ==> (#[trigger] position_entries(spans, n)[k]).3 < n,
        position_entries(spans, n).len() == n,
    decreases n,
{
    if n > 0 {
        lemma_position_entries(spans, n - 1);
        let p = position_entries(spans, n - 1);
        assert forall|k: int| 0 <= k < position_entries(spans, n).len() implies (#[trigger] position_entries(spans, n)[k]).3 < n by {
            if k < p.len() {
                assert(position_entries(spans, n)[k] == p[k]);
            }
        }
    }
}

proof fn lemma_leaf_colors(leaves: Seq<(Seq<char>, Seq<char>)>, e: Extraction, si: usize, b: Seq<u8>, n: int)
    ensures
        forall|k: int| 0 <= k < leaf_spans(leaves, e, si, b, n).len() ==> (#[trigger] leaf_spans(leaves, e, si, b, n)[k]).4 == si,
    decreases n,
{
    if 0 < n <= leaves.len() {
        lemma_leaf_colors(leaves, e, si, b, n - 1);
        let p = leaf_spans(leaves, e, si, b, n - 1);
        assert forall|k: int| 0 <= k < leaf_spans(leaves, e, si, b, n).len() implies (#[trigger] leaf_spans(leaves, e, si, b, n)[k]).4 == si by {
            if k < p.len() {
                assert(leaf_spans(leaves, e, si, b, n)[k] == p[k]);
            }
        }
    }
}

proof fn lemma_result_colors(es: Seq<Extraction>, si: usize, b: Seq<u8>, expand: bool, n: int)
    ensures
        forall|k: int| 0 <= k < result_spans(es, si, b, expand, n).len() ==> (#[trigger] result_spans(es, si, b, expand, n)[k]).4 == si,
    decreases n,
{
    if 0 < n <= es.len() {
        lemma_result_colors(es, si, b, expand, n - 1);
        let p = result_spans(es, si, b, expand, n - 1);
        let e = es[n - 1];
        let x = extraction_spans(e, si, b, expand);
        let m = main_span(e, si, b);
        match json_text_leaves(e.extraction_class@, e.extraction_text@) {
            Some(leaves) => lemma_leaf_colors(leaves, e, si, b, leaves.len() as int),
            None => {},
        }
        assert forall|k: int| 0 <= k < x.len() implies (#[trigger] x[k]).4 == si by {
            if k >= m.len() {
                match json_text_leaves(e.extraction_class@, e.extraction_text@) {
                    Some(leaves) => {
                        if expand {
                            assert(x[k] == leaf_spans(leaves, e, si, b, leaves.len() as int)[k - m.len()]);
                        }
                    },
                    None => {},
                }
            }
        }
        assert forall|k: int| 0 <= k < result_spans(es, si, b, expand, n).len() implies (#[trigger] result_spans(es, si, b, expand, n)[k]).4 == si by {
            if k < p.len() {
                assert(result_spans(es, si, b, expand, n)[k] == p[k]);
            } else {
                assert(result_spans(es, si, b, expand, n)[k] == x[k - p.len()]);
            }
        }
    }
}

proof fn lemma_pipeline_colors(steps: Seq<PipelineStep>, rs: Seq<StepResult>, b: Seq<u8>, expand: bool, n: int)
    requires
        steps.len() <= usize::MAX,
    ensures
        forall|k: int| 0 <= k < pipeline_spans(steps, rs, b, expand, n).len() ==> (#[trigger] pipeline_spans(steps, rs, b, expand, n)[k]).4 < usize::MAX,
    decreases n,
{
    if 0 < n <= rs.len() {
        lemma_pipeline_colors(steps, rs, b, expand, n - 1);
        let p = pipeline_spans(steps, rs, b, expand, n - 1);
        let si = step_color(steps, rs[n - 1].step_id@);
        lemma_step_color_bound(steps, rs[n - 1].step_id@, steps.len() as int);
        let x = result_spans(rs[n - 1].extractions@, si, b, expand, rs[n - 1].extractions@.len() as int);
        lemma_result_colors(rs[n - 1].extractions@, si, b, expand, rs[n - 1].extractions@.len() as int);
        assert forall|k: int| 0 <= k < pipeline_spans(steps, rs, b, expand, n).len() implies (#[trigger] pipeline_spans(steps, rs, b, expand, n)[k]).4 < usize::MAX by {
            if k < p.len() {
                assert(pipeline_spans(steps, rs, b, expand, n)[k] == p[k]);
            } else {
                assert(pipeline_spans(steps, rs, b, expand, n)[k] == x[k - p.len()]);
            }
        }
    }
}

fn copy_span(s: &LayeredSpan) -> (r: LayeredSpan)
    ensures
        r == *s,
{
    LayeredSpan {
        start: s.start,
        end: s.end,
        class_name: s.class_name.clone(),
        text: s.text.clone(),
        step_index: s.step_index,
        parent_step_id: match &s.parent_step_id {
            Some(x) => Some(x.clone()),
            None => None,
        },
        parent_class: match &s.parent_class {
            Some(x) => Some(x.clone()),
            None => None,
        },
        parent_text: match &s.parent_text {
            Some(x) => Some(x.clone()),
            None => None,
        },
    }
}

/// The spans in order of start, then end, as [`by_position`] says.
pub fn sort_spans_by_position(spans: &Vec<LayeredSpan>) -> (r: Vec<LayeredSpan>)
    ensures
        r@ == by_position(spans@),
{
    let mut entries: Vec<Keyed> = Vec::new();
    let mut i: usize = 0;
    while i < spans.len()
        invariant
            i <= spans@.len(),
            entries@ == position_entries(spans@, i as int),
        decreases spans@.len() - i,
    {
        entries.push((spans[i].start, spans[i].end, 0, i));
        i = i + 1;
    }
    proof {
        lemma_position_entries(spans@, spans@.len() as int);
        lemma_sorted_bound(entries@, spans@.len() as int);
        lemma_sorted_keyed(entries@);
    }
    let order = sort_keyed(&entries);
    let mut out: Vec<LayeredSpan> = Vec::new();
    let mut k: usize = 0;
    while k < order.len()
        invariant
            k <= order@.len(),
            order@ == sorted_keyed(entries@),
            forall|q: int| 0 <= q < order@.len() ==> (#[trigger] order@[q]).3 < spans@.len(),
            out@ == order@.subrange(0, k as int).map_values(|x: Keyed| spans@[x.3 as int]),
        decreases order@.len() - k,
    {
        let sp = copy_span(&spans[order[k].3]);
        out.push(sp);
        proof {
            assert(order@.subrange(0, k + 1).map_values(|x: Keyed| spans@[x.3 as int]) =~= order@.subrange(0, k as int).map_values(
                |x: Keyed| spans@[x.3 as int],
            ).push(spans@[order@[k as int].3 as int]));
        }
        k = k + 1;
    }
    proof {
        assert(order@.subrange(0, order@.len() as int) =~= order@);
    }
    out
}

/// The HTML page of a pipeline's results: its steps' extractions drawn as
/// layered highlights over the original text, in order of position, with
/// an optional legend of the steps and a list of extractions by step.
pub fn export_pipeline_html(
    steps: &Vec<PipelineStep>,
    step_results: &Vec<StepResult>,
    original_text: &str,
    config: &ExportConfig,
) -> (r: LangExtractResult<String>)
    ensures
        r matches Ok(html) && exists|sp: Seq<LayeredSpan>|
            spans_view(sp) == pipeline_spans(steps@, step_results@, bytes(original_text), config.expand_nested_json, step_results@.len() as int)
            && #[trigger] pipeline_html(steps@, sp, original_text@, *config) == html@,
{
    let spans = build_layered_spans(steps, step_results, original_text, config.expand_nested_json);
    let sorted = sort_spans_by_position(&spans);
    let step_count = steps.len();
    proof {
        assert(steps@.len() == step_count);
        lemma_pipeline_colors(steps@, step_results@, bytes(original_text), config.expand_nested_json, step_results@.len() as int);
        lemma_position_entries(spans@, spans@.len() as int);
        lemma_sorted_bound(position_entries(spans@, spans@.len() as int), spans@.len() as int);
        lemma_sorted_keyed(position_entries(spans@, spans@.len() as int));
        assert forall|i: int| 0 <= i < sorted@.len() implies (#[trigger] sorted@[i]).step_index < usize::MAX by {
            let k = sorted_keyed(position_entries(spans@, spans@.len() as int))[i].3 as int;
            assert(sorted@[i] == spans@[k]);
            assert(spans_view(spans@)[k].4 == spans@[k].step_index);
        }
    }
    let mut html = String::new();
    push_str(&mut html, PAGE_HEAD);
    match &config.title {
        Some(t) => push_str(&mut html, t.as_str()),
        None => push_str(&mut html, "LangExtract Pipeline Results"),
    }
    push_str(&mut html, PAGE_TITLE_TO_H1);
    match &config.title {
        Some(t) => push_str(&mut html, t.as_str()),
        None => push_str(&mut html, "LangExtract Pipeline Results"),
    }
    push_str(&mut html, PAGE_AFTER_H1);
    if config.show_pipeline_legend {
        let legend = build_legend_html(steps);
        push_str(&mut html, legend.as_str());
    }
    push_str(&mut html, PAGE_TEXT_OPEN);
    let body = match highlight_text_html_with_layers(original_text, &sorted, config.allow_overlapping_highlights) {
        Ok(b) => b,
        Err(e) => {
            return Err(e);
        },
    };
    push_str(&mut html, body.as_str());
    push_str(&mut html, PAGE_LIST_OPEN);
    let list = build_extractions_list_html(&sorted);
    push_str(&mut html, list.as_str());
    push_str(&mut html, PAGE_TAIL);
    proof {
        assert(html@ =~= pipeline_html(steps@, spans@, original_text@, *config));
    }
    Ok(html)
}

// ---------------------------------------------------------------------------
// The flattened JSON listing.

/// The entry for attribute `k` of an extraction, when it has one.
pub open spec fn parent_entry(attrs: Option<Vec<(String, Value)>>, k: Seq<char>) -> Seq<(Seq<char>, Value)> {
    match attribute_of(attrs, k) {
        Some(v) => seq![(k, v)],
        None => seq![],
    }
}

/// One item of the flattened listing: class, text, step and step name, the
/// position when both ends are known, and the attributes that link the
/// extraction to its input.
pub open spec fn flat_item(
    class: Seq<char>,
    text: Seq<char>,
    sid: Seq<char>,
    sname: Seq<char>,
    start: Option<usize>,
    end: Option<usize>,
    attrs: Option<Vec<(String, Value)>>,
) -> Value {
    json_object_value(
        seq![
            ("extraction_class"@, json_string_value(class)),
            ("extraction_text"@, json_string_value(text)),
            ("step_id"@, json_string_value(sid)),
            ("step_name"@, json_string_value(sname)),
        ] + match (start, end) {
            (Some(s), Some(e)) => seq![
                ("char_interval"@, json_object_value(
                    seq![("start_pos"@, json_number_value(Some(s as u64))), ("end_pos"@, json_number_value(Some(e as u64)))],
                )),
            ],
            _ => seq![],
        } + parent_entry(attrs, "parent_step_id"@) + parent_entry(attrs, "parent_start"@) + parent_entry(attrs, "parent_end"@),
    )
}

/// The position listed for an extraction: its own ends; when one is
/// unknown, the first place its text occurs, if it does.
pub open spec fn flat_position(e: Extraction, b: Seq<u8>) -> (Option<usize>, Option<usize>) {
    let s = crate::pipeline::start_of(e);
    let en = crate::pipeline::end_of(e);
    if s is None || en is None {
        let t = encode_utf8(e.extraction_text@);
        match first_occurrence(b, t, 0) {
            Some(f) => (Some(f as usize), Some((f + t.len()) as usize)),
            None => (s, en),
        }
    } else {
        (s, en)
    }
}

/// The items of the first `n` string leaves of an extraction: each
/// non-empty string, positioned at its first occurrence if it has one.
pub open spec fn flat_leaf_items(
    leaves: Seq<(Seq<char>, Seq<char>)>,
    e: Extraction,
    sid: Seq<char>,
    sname: Seq<char>,
    b: Seq<u8>,
    n: int,
) -> Seq<Value>
    decreases n,
{
    if n <= 0 || n > leaves.len() {
        seq![]
    } else {
        let (class, s) = leaves[n - 1];
        let t = encode_utf8(s);
        let this = if s.len() == 0 {
            seq![]
        } else {
            match first_occurrence(b, t, 0) {
                Some(f) => seq![flat_item(class, s, sid, sname, Some(f as usize), Some((f + t.len()) as usize), e.attributes)],
                None => seq![flat_item(class, s, sid, sname, None, None, e.attributes)],
            }
        };
        flat_leaf_items(leaves, e, sid, sname, b, n - 1) + this
    }
}

/// The items of one extraction: its own, then, when nested JSON is
/// expanded and its text is JSON, those of the strings within.
pub open spec fn flat_extraction_items(e: Extraction, sid: Seq<char>, sname: Seq<char>, b: Seq<u8>, expand: bool) -> Seq<Value> {
    let pos = flat_position(e, b);
    seq![flat_item(e.extraction_class@, e.extraction_text@, sid, sname, pos.0, pos.1, e.attributes)] + if expand {
        match json_text_leaves(e.extraction_class@, e.extraction_text@) {
            Some(leaves) => flat_leaf_items(leaves, e, sid, sname, b, leaves.len() as int),
            None => seq![],
        }
    } else {
        seq![]
    }
}

/// The items of the first `n` extractions of a step result.
pub open spec fn flat_result_items(es: Seq<Extraction>, sid: Seq<char>, sname: Seq<char>, b: Seq<u8>, expand: bool, n: int) -> Seq<Value>
    decreases n,
{
    if n <= 0 || n > es.len() {
        seq![]
    } else {
        flat_result_items(es, sid, sname, b, expand, n - 1) + flat_extraction_items(es[n - 1], sid, sname, b, expand)
    }
}

/// The name of the step with identifier `id`: that of the last step with
/// it, empty when there is none.
pub open spec fn step_name_of(steps: Seq<PipelineStep>, id: Seq<char>) -> Seq<char> {
    match last_step_from(steps, id, steps.len() as int) {
        Some(k) => steps[k].name@,
        None => seq![],
    }
}

/// The items of the first `n` step results.
pub open spec fn flat_items(steps: Seq<PipelineStep>, rs: Seq<StepResult>, b: Seq<u8>, expand: bool, n: int) -> Seq<Value>
    decreases n,
{
    if n <= 0 || n > rs.len() {
        seq![]
    } else {
        flat_items(steps, rs, b, expand, n - 1) + flat_result_items(
            rs[n - 1].extractions@,
            rs[n - 1].step_id@,
            step_name_of(steps, rs[n - 1].step_id@),
            b,
            expand,
            rs[n - 1].extractions@.len() as int,
        )
    }
}

/// The flattened listing: its items and a summary of the run.
pub open spec fn flat_document(steps: Seq<PipelineStep>, rs: Seq<StepResult>, total_time_ms: u64, b: Seq<u8>, expand: bool) -> Value {
    json_object_value(
        seq![
            ("extractions"@, json_array_value(flat_items(steps, rs, b, expand, rs.len() as int))),
            ("metadata"@, json_object_value(
                seq![
                    ("steps"@, json_number_value(Some(steps.len() as u64))),
                    ("total_time_ms"@, json_number_value(Some(total_time_ms))),
                    ("expand_nested_json"@, json_bool_value(expand)),
                ],
            )),
        ],
    )
}

fn parent_entries(entries: &mut Vec<(String, Value)>, attrs: &Option<Vec<(String, Value)>>, key: &str)
    ensures
        entries_view(final(entries)@) == entries_view(old(entries)@) + parent_entry(*attrs, key@),
{
    match attrs {
        Some(a) => match crate::data::get_entry(a, key) {
            Some(v) => {
                let ghost before = entries@;
                entries.push((key.to_string(), v.clone()));
                proof {
                    assert(entries_view(entries@) =~= entries_view(before) + parent_entry(*attrs, key@));
                }
            },
            None => {
                proof {
                    assert(entries_view(entries@) + seq![] =~= entries_view(entries@));
                }
            },
        },
        None => {
            proof {
                assert(entries_view(entries@) + seq![] =~= entries_view(entries@));
            }
        },
    }
}

fn flat_item_value(
    class: &str,
    text: &str,
    sid: &str,
    sname: &str,
    start: Option<usize>,
    end: Option<usize>,
    attrs: &Option<Vec<(String, Value)>>,
) -> (v: Value)
    ensures
        v == flat_item(class@, text@, sid@, sname@, start, end, *attrs),
{
    let mut obj: Vec<(String, Value)> = Vec::new();
    obj.push(("extraction_class".to_string(), json_string(class.to_string())));
    obj.push(("extraction_text".to_string(), json_string(text.to_string())));
    obj.push(("step_id".to_string(), json_string(sid.to_string())));
    obj.push(("step_name".to_string(), json_string(sname.to_string())));
    match (start, end) {
        (Some(s), Some(e)) => {
            let mut ci: Vec<(String, Value)> = Vec::new();
            ci.push(("start_pos".to_string(), json_number(Some(s as u64))));
            ci.push(("end_pos".to_string(), json_number(Some(e as u64))));
            proof {
                assert(entries_view(ci@) =~= seq![("start_pos"@, json_number_value(Some(s as u64))), ("end_pos"@, json_number_value(Some(e as u64)))]);
            }
            obj.push(("char_interval".to_string(), json_object(ci)));
        },
        _ => {},
    }
    let ghost head = entries_view(obj@);
    parent_entries(&mut obj, attrs, "parent_step_id");
    parent_entries(&mut obj, attrs, "parent_start");
    parent_entries(&mut obj, attrs, "parent_end");
    proof {
        assert(entries_view(obj@) =~= seq![
            ("extraction_class"@, json_string_value(class@)),
            ("extraction_text"@, json_string_value(text@)),
            ("step_id"@, json_string_value(sid@)),
            ("step_name"@, json_string_value(sname@)),
        ] + match (start, end) {
            (Some(s), Some(e)) => seq![
                ("char_interval"@, json_object_value(
                    seq![("start_pos"@, json_number_value(Some(s as u64))), ("end_pos"@, json_number_value(Some(e as u64)))],
                )),
            ],
            _ => seq![],
        } + parent_entry(*attrs, "parent_step_id"@) + parent_entry(*attrs, "parent_start"@) + parent_entry(*attrs, "parent_end"@));
    }
    json_object(obj)
}

fn push_flat_items(e: &Extraction, sid: &str, sname: &str, text: &str, expand: bool, items: &mut Vec<Value>)
    ensures
        final(items)@ == old(items)@ + flat_extraction_items(*e, sid@, sname@, bytes(text), expand),
{
    let ghost b = bytes(text);
    let _n = byte_len(text);
    let mut start = match &e.char_interval {
        Some(ci) => ci.start_pos,
        None => None,
    };
    let mut end = match &e.char_interval {
        Some(ci) => ci.end_pos,
        None => None,
    };
    if start.is_none() || end.is_none() {
        match find_text(text, e.extraction_text.as_str()) {
            Some(found) => {
                proof {
                    crate::chunking::lemma_first_occurrence_bounds(b, encode_utf8(e.extraction_text@), 0);
                }
                start = Some(found);
                end = Some(found + byte_len(e.extraction_text.as_str()));
            },
            None => {},
        }
    }
    let ghost before = items@;
    let first = flat_item_value(e.extraction_class.as_str(), e.extraction_text.as_str(), sid, sname, start, end, &e.attributes);
    items.push(first);
    let ghost mid = items@;
    if expand {
        match nested_json_leaves(e.extraction_class.as_str(), e.extraction_text.as_str()) {
            Some(pairs) => {
                let ghost leaves = pairs_view(pairs@);
                let mut k: usize = 0;
                while k < pairs.len()
                    invariant
                        k <= pairs@.len(),
                        leaves == pairs_view(pairs@),
                        b == bytes(text),
                        _n == b.len(),
                        items@ == mid + flat_leaf_items(leaves, *e, sid@, sname@, b, k as int),
                    decreases pairs@.len() - k,
                {
                    let cls: &str = pairs[k].0.as_str();
                    let sv: &str = pairs[k].1.as_str();
                    proof {
                        assert(leaves[k as int] == (cls@, sv@));
                    }
                    if byte_len(sv) != 0 {
                        proof {
                            lemma_nonempty_text(sv);
                        }
                        let (ls, le) = match find_text(text, sv) {
                            Some(found) => {
                                proof {
                                    crate::chunking::lemma_first_occurrence_bounds(b, encode_utf8(sv@), 0);
                                }
                                (Some(found), Some(found + byte_len(sv)))
                            },
                            None => (None, None),
                        };
                        let v = flat_item_value(cls, sv, sid, sname, ls, le, &e.attributes);
                        items.push(v);
                    } else {
                        proof {
                            lemma_empty_text(sv);
                        }
                    }
                    proof {
                        assert(items@ =~= mid + flat_leaf_items(leaves, *e, sid@, sname@, b, k + 1));
                    }
                    k = k + 1;
                }
            },
            None => {},
        }
    }
    proof {
        assert(items@ =~= before + flat_extraction_items(*e, sid@, sname@, b, expand));
    }
}

fn step_name_for(steps: &Vec<PipelineStep>, id: &str) -> (r: String)
    ensures
        r@ == step_name_of(steps@, id@),
{
    let mut found: Option<usize> = None;
    let mut i: usize = 0;
    while i < steps.len()
        invariant
            i <= steps@.len(),
            match found {
                Some(k) => last_step_from(steps@, id@, i as int) == Some(k as int) && k < steps@.len(),
                None => last_step_from(steps@, id@, i as int) is None,
            },
        decreases steps@.len() - i,
    {
        if strings_equal(steps[i].id.as_str(), id) {
            found = Some(i);
        }
        i = i + 1;
    }
    match found {
        Some(k) => steps[k].name.clone(),
        None => String::new(),
    }
}

/// The message of a JSON serialization error.
pub open spec fn json_error_message(m: Seq<char>) -> Seq<char> {
    "JSON error: "@ + m
}

/// A flattened JSON listing of a pipeline's results, one item per
/// extraction (and, when nested JSON is expanded, per string within one),
/// with a summary of the run; see [`flat_document`].
pub fn export_pipeline_flattened_json(
    steps: &Vec<PipelineStep>,
    step_results: &Vec<StepResult>,
    total_time_ms: u64,
    original_text: &str,
    expand_nested_json: bool,
) -> (r: LangExtractResult<String>)
    ensures
        match pretty_json(flat_document(steps@, step_results@, total_time_ms, bytes(original_text), expand_nested_json)) {
            Ok(s) => r matches Ok(x) && x@ == s,
            Err(m) => r matches Err(LangExtractError::SerializationError(x)) && x@ == json_error_message(m),
        },
{
    let ghost b = bytes(original_text);
    let mut items: Vec<Value> = Vec::new();
    let mut i: usize = 0;
    while i < step_results.len()
        invariant
            i <= step_results@.len(),
            b == bytes(original_text),
            items@ == flat_items(steps@, step_results@, b, expand_nested_json, i as int),
        decreases step_results@.len() - i,
    {
        let step_res = &step_results[i];
        let name = step_name_for(steps, step_res.step_id.as_str());
        let ghost base = items@;
        let mut k: usize = 0;
        while k < step_res.extractions.len()
            invariant
                k <= step_res.extractions@.len(),
                b == bytes(original_text),
                items@ == base + flat_result_items(step_res.extractions@, step_res.step_id@, name@, b, expand_nested_json, k as int),
            decreases step_res.extractions@.len() - k,
        {
            push_flat_items(&step_res.extractions[k], step_res.step_id.as_str(), name.as_str(), original_text, expand_nested_json, &mut items);
            proof {
                assert(base + flat_result_items(step_res.extractions@, step_res.step_id@, name@, b, expand_nested_json, k + 1)
                    =~= base + flat_result_items(step_res.extractions@, step_res.step_id@, name@, b, expand_nested_json, k as int)
                    + flat_extraction_items(step_res.extractions@[k as int], step_res.step_id@, name@, b, expand_nested_json));
            }
            k = k + 1;
        }
        i = i + 1;
    }
    let mut meta: Vec<(String, Value)> = Vec::new();
    meta.push(("steps".to_string(), json_number(Some(steps.len() as u64))));
    meta.push(("total_time_ms".to_string(), json_number(Some(total_time_ms))));
    meta.push(("expand_nested_json".to_string(), json_bool(expand_nested_json)));
    proof {
        assert(entries_view(meta@) =~= seq![
            ("steps"@, json_number_value(Some(steps@.len() as u64))),
            ("total_time_ms"@, json_number_value(Some(total_time_ms))),
            ("expand_nested_json"@, json_bool_value(expand_nested_json)),
        ]);
    }
    let mut root: Vec<(String, Value)> = Vec::new();
    root.push(("extractions".to_string(), json_array(items)));
    root.push(("metadata".to_string(), json_object(meta)));
    let ghost rv = entries_view(root@);
    let doc = json_object(root);
    proof {
        assert(rv =~= seq![
            ("extractions"@, json_array_value(flat_items(steps@, step_results@, b, expand_nested_json, step_results@.len() as int))),
            ("metadata"@, json_object_value(
                seq![
                    ("steps"@, json_number_value(Some(steps@.len() as u64))),
                    ("total_time_ms"@, json_number_value(Some(total_time_ms))),
                    ("expand_nested_json"@, json_bool_value(expand_nested_json)),
                ],
            )),
        ]);
    }
    match json_pretty(&doc) {
        Ok(s) => Ok(s),
        Err(m) => {
            let mut message = String::new();
            push_str(&mut message, "JSON error: ");
            push_str(&mut message, m.as_str());
            Err(LangExtractError::SerializationError(message))
        },
    }
}

} // verus!
