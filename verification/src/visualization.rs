//! Rendering annotated documents for people: escaped HTML with highlighted
//! extractions, CSV rows and class counts.

use vstd::prelude::*;
use vstd::utf8::*;
use crate::text::{bytes, byte_len, substr, push_str, push_char, chars_of, lemma_str_valid, decimal, push_decimal};
use crate::data::{AnnotatedDocument, Extraction, AlignmentStatus, CharInterval, strings_equal};
use crate::exceptions::{LangExtractError, LangExtractResult};
use crate::layers::{Keyed, sorted_keyed, sort_keyed, json_error_message, lemma_char_floor_max};
use crate::json::{json_bool, json_bool_value, json_number, json_number_value, json_array, json_array_value, json_object, json_object_value, entries_view, json_opt_string, json_opt_string_value};
use crate::schema::{json_string, json_string_value};
use crate::templates::{json_pretty, pretty_json};
use crate::markup::{lacks, visible_text, tags_balanced, lemma_tag, lemma_escaped, lemma_lacks_concat, lemma_text_between_split};
use serde_json::Value;

verus! {

broadcast use vstd::seq::group_seq_axioms;

/// The formats an annotated document can be exported in.
#[derive(Debug, Clone, Copy, PartialEq, Eq, Structural)]
pub enum ExportFormat {
    /// Plain text.
    Text,
    /// HTML with highlighted extractions.
    Html,
    /// Markdown with summaries.
    Markdown,
    /// JSON.
    Json,
    /// CSV, one row per extraction.
    Csv,
}

/// Settings of an export.
#[derive(Debug, Clone)]
pub struct ExportConfig {
    /// The format to export in.
    pub format: ExportFormat,
    /// Whether positions are shown.
    pub show_char_intervals: bool,
    /// Whether the document text is included.
    pub include_text: bool,
    /// Whether extractions are highlighted in the text.
    pub highlight_extractions: bool,
    /// Whether statistics are included.
    pub include_statistics: bool,
    /// Extra CSS for HTML exports.
    pub custom_css: Option<String>,
    /// The title of the export.
    pub title: Option<String>,
    /// Whether highlights of all pipeline steps are shown together.
    pub aggregate_pipeline_highlights: bool,
    /// Whether JSON held in extraction texts is expanded into its strings.
    pub expand_nested_json: bool,
    /// Whether highlights may overlap.
    pub allow_overlapping_highlights: bool,
    /// Whether a legend of pipeline steps is shown.
    pub show_pipeline_legend: bool,
}

impl Default for ExportConfig {
    fn default() -> (c: Self)
        ensures
            c.format == ExportFormat::Text,
            !c.show_char_intervals,
            c.include_text,
            c.highlight_extractions,
            c.include_statistics,
            c.custom_css is None,
            c.title is None,
            !c.aggregate_pipeline_highlights,
            !c.expand_nested_json,
            !c.allow_overlapping_highlights,
            c.show_pipeline_legend,
    {
        ExportConfig {
            format: ExportFormat::Text,
            show_char_intervals: false,
            include_text: true,
            highlight_extractions: true,
            include_statistics: true,
            custom_css: None,
            title: None,
            aggregate_pipeline_highlights: false,
            expand_nested_json: false,
            allow_overlapping_highlights: false,
            show_pipeline_legend: true,
        }
    }
}

// ---------------------------------------------------------------------------
// Escaping.

/// The HTML rendering of one character: `&`, `<`, `>`, `"` and `'` become
/// entities.
pub open spec fn html_escaped_char(c: char) -> Seq<char> {
    if c == '&' {
        "&amp;"@
    } else if c == '<' {
        "&lt;"@
    } else if c == '>' {
        "&gt;"@
    } else if c == '"' {
        "&quot;"@
    } else if c == '\'' {
        "&#x27;"@
    } else {
        seq![c]
    }
}

/// The HTML rendering of a text.
pub open spec fn html_escaped(s: Seq<char>) -> Seq<char>
    decreases s.len(),
{
    if s.len() == 0 {
        seq![]
    } else {
        html_escaped(s.drop_last()) + html_escaped_char(s.last())
    }
}

/// Escapes a text for HTML.
pub fn html_escape(text: &str) -> (r: String)
    ensures
        r@ == html_escaped(text@),
{
    let chars = chars_of(text);
    let ghost s = chars@;
    let mut out = String::new();
    let mut k: usize = 0;
    while k < chars.len()
        invariant
            s == chars@,
            s == text@,
            k <= s.len(),
            out@ == html_escaped(s.subrange(0, k as int)),
        decreases s.len() - k,
    {
        let c = chars[k];
        proof {
            assert(s.subrange(0, k + 1).drop_last() =~= s.subrange(0, k as int));
        }
        if c == '&' {
            push_str(&mut out, "&amp;");
        } else if c == '<' {
            push_str(&mut out, "&lt;");
        } else if c == '>' {
            push_str(&mut out, "&gt;");
        } else if c == '"' {
            push_str(&mut out, "&quot;");
        } else if c == '\'' {
            push_str(&mut out, "&#x27;");
        } else {
            push_char(&mut out, c);
        }
        k = k + 1;
    }
    proof {
        assert(s.subrange(0, s.len() as int) =~= s);
    }
    out
}

/// The text with every `"` doubled.
pub open spec fn quotes_doubled(s: Seq<char>) -> Seq<char>
    decreases s.len(),
{
    if s.len() == 0 {
        seq![]
    } else {
        quotes_doubled(s.drop_last()) + if s.last() == '"' { seq!['"', '"'] } else { seq![s.last()] }
    }
}

/// A CSV field needs quotes when it holds a comma, a quote or a newline.
pub open spec fn needs_csv_quotes(s: Seq<char>) -> bool {
    s.contains(',') || s.contains('"') || s.contains('\n')
}

/// A text as a CSV field: quoted with inner quotes doubled when it needs
/// quotes, else as it is.
pub open spec fn csv_escaped(s: Seq<char>) -> Seq<char> {
    if needs_csv_quotes(s) {
        seq!['"'] + quotes_doubled(s) + seq!['"']
    } else {
        s
    }
}

/// Escapes a text as a CSV field.
pub fn csv_escape(text: &str) -> (r: String)
    ensures
        r@ == csv_escaped(text@),
{
    let chars = chars_of(text);
    let ghost s = chars@;
    let mut needs = false;
    let mut k: usize = 0;
    while k < chars.len()
        invariant
            s == chars@,
            s == text@,
            k <= s.len(),
            needs == (exists|j: int| 0 <= j < k && (s[j] == ',' || s[j] == '"' || s[j] == '\n')),
        decreases s.len() - k,
    {
        let c = chars[k];
        if c == ',' || c == '"' || c == '\n' {
            needs = true;
        }
        k = k + 1;
    }
    proof {
        if needs {
            let j = choose|j: int| 0 <= j < k && (s[j] == ',' || s[j] == '"' || s[j] == '\n');
            if s[j] == ',' {
                assert(s.contains(','));
            } else if s[j] == '"' {
                assert(s.contains('"'));
            } else {
                assert(s.contains('\n'));
            }
        } else {
            if s.contains(',') {
                let j = choose|j: int| 0 <= j < s.len() && s[j] == ',';
                assert(false);
            }
            if s.contains('"') {
                let j = choose|j: int| 0 <= j < s.len() && s[j] == '"';
                assert(false);
            }
            if s.contains('\n') {
                let j = choose|j: int| 0 <= j < s.len() && s[j] == '\n';
                assert(false);
            }
        }
    }
    if !needs {
        return text.to_string();
    }
    let mut out = String::new();
    push_char(&mut out, '"');
    let mut k: usize = 0;
    while k < chars.len()
        invariant
            s == chars@,
            k <= s.len(),
            out@ == seq!['"'] + quotes_doubled(s.subrange(0, k as int)),
        decreases s.len() - k,
    {
        let c = chars[k];
        proof {
            assert(s.subrange(0, k + 1).drop_last() =~= s.subrange(0, k as int));
        }
        if c == '"' {
            push_char(&mut out, '"');
            push_char(&mut out, '"');
        } else {
            push_char(&mut out, c);
        }
        proof {
            assert(out@ =~= seq!['"'] + quotes_doubled(s.subrange(0, k + 1)));
        }
        k = k + 1;
    }
    push_char(&mut out, '"');
    proof {
        assert(s.subrange(0, s.len() as int) =~= s);
    }
    out
}

// ---------------------------------------------------------------------------
// Character boundaries.

/// The nearest character boundary at or before `i`.
pub open spec fn char_floor(b: Seq<u8>, i: int) -> int
    decreases i,
{
    if i <= 0 {
        0
    } else if is_char_boundary(b, i) {
        i
    } else {
        char_floor(b, i - 1)
    }
}

/// The position `index` moved back to the nearest character boundary, and
/// the end of the text for a position at or past it.
pub open spec fn find_char_boundary_spec(b: Seq<u8>, index: int) -> int {
    if index >= b.len() { b.len() as int } else { char_floor(b, index) }
}

pub(crate) proof fn lemma_char_floor(b: Seq<u8>, i: int)
    requires
        valid_utf8(b),
        0 <= i <= b.len(),
    ensures
        0 <= char_floor(b, i) <= i,
        is_char_boundary(b, char_floor(b, i)),
    decreases i,
{
    if i <= 0 {
        is_char_boundary_start_end_of_seq(b);
    } else if !is_char_boundary(b, i) {
        lemma_char_floor(b, i - 1);
    }
}

/// Moves `index` back to the nearest character boundary; a position at or
/// past the end gives the end.
pub fn find_char_boundary(text: &str, index: usize) -> (r: usize)
    ensures
        r == find_char_boundary_spec(bytes(text), index as int),
        r <= bytes(text).len(),
        is_char_boundary(bytes(text), r as int),
{
    let n = byte_len(text);
    proof {
        lemma_str_valid(text);
        is_char_boundary_start_end_of_seq(bytes(text));
    }
    if index >= n {
        return n;
    }
    proof {
        lemma_char_floor(bytes(text), index as int);
    }
    if text.is_char_boundary(index) {
        return index;
    }
    let mut i = index;
    while i > 0 && !text.is_char_boundary(i)
        invariant
            i <= index < n,
            char_floor(bytes(text), index as int) == char_floor(bytes(text), i as int),
        decreases i,
    {
        i = i - 1;
    }
    i
}

// ---------------------------------------------------------------------------
// Counting classes.

/// The number of extractions of class `c`.
pub open spec fn class_count(es: Seq<Extraction>, c: Seq<char>) -> nat
    decreases es.len(),
{
    if es.len() == 0 {
        0
    } else {
        class_count(es.drop_last(), c) + if es.last().extraction_class@ == c { 1nat } else { 0nat }
    }
}

/// The classes of the extractions, each once, in the order they first occur.
pub open spec fn classes_in_order(es: Seq<Extraction>) -> Seq<Seq<char>>
    decreases es.len(),
{
    if es.len() == 0 {
        seq![]
    } else {
        let f = classes_in_order(es.drop_last());
        if f.contains(es.last().extraction_class@) { f } else { f.push(es.last().extraction_class@) }
    }
}

proof fn lemma_class_count_absent(es: Seq<Extraction>, c: Seq<char>)
    requires
        !classes_in_order(es).contains(c),
    ensures
        class_count(es, c) == 0,
    decreases es.len(),
{
    if es.len() > 0 {
        let f = classes_in_order(es.drop_last());
        let cl = es.last().extraction_class@;
        if !f.contains(cl) {
            assert(classes_in_order(es) == f.push(cl));
            assert(f.push(cl)[f.len() as int] == cl);
            assert forall|j: int| 0 <= j < f.len() implies f[j] != c by {
                assert(f.push(cl)[j] == f[j]);
            }
        }
        lemma_class_count_absent(es.drop_last(), c);
    }
}

proof fn lemma_classes_distinct(es: Seq<Extraction>)
    ensures
        forall|i: int, j: int| 0 <= i < j < classes_in_order(es).len() ==> classes_in_order(es)[i]
            != classes_in_order(es)[j],
    decreases es.len(),
{
    if es.len() > 0 {
        lemma_classes_distinct(es.drop_last());
        let f = classes_in_order(es.drop_last());
        let cl = es.last().extraction_class@;
        if !f.contains(cl) {
            let g = f.push(cl);
            assert(classes_in_order(es) == g);
            assert forall|i: int, j: int| 0 <= i < j < g.len() implies g[i] != g[j] by {
                if j == f.len() {
                    assert(g[i] == f[i]);
                }
            }
        }
    }
}

/// How many extractions there are of each class: one entry per class, in
/// the order the classes first occur.
pub fn count_extraction_classes(extractions: &[Extraction]) -> (r: Vec<(String, usize)>)
    requires
        extractions@.len() <= usize::MAX,
    ensures
        r@.len() == classes_in_order(extractions@).len(),
        forall|k: int| 0 <= k < r@.len() ==> (#[trigger] r@[k]).0@ == classes_in_order(extractions@)[k],
        forall|k: int| 0 <= k < r@.len() ==> (#[trigger] r@[k]).1 == class_count(
            extractions@,
            classes_in_order(extractions@)[k],
        ),
{
    let ghost es = extractions@;
    let mut counts: Vec<(String, usize)> = Vec::new();
    let mut i: usize = 0;
    while i < extractions.len()
        invariant
            es == extractions@,
            i <= es.len(),
            counts@.len() == classes_in_order(es.subrange(0, i as int)).len(),
            forall|k: int| 0 <= k < counts@.len() ==> (#[trigger] counts@[k]).0@ == classes_in_order(es.subrange(0, i as int))[k],
            forall|k: int| 0 <= k < counts@.len() ==> (#[trigger] counts@[k]).1 == class_count(
                es.subrange(0, i as int),
                classes_in_order(es.subrange(0, i as int))[k],
            ),
            forall|k: int| 0 <= k < counts@.len() ==> (#[trigger] counts@[k]).1 <= i,
        decreases es.len() - i,
    {
        let ghost pre = es.subrange(0, i as int);
        let ghost post = es.subrange(0, i + 1);
        let ghost f = classes_in_order(pre);
        proof {
            assert(post.drop_last() =~= pre);
            assert(post.last() == es[i as int]);
        }
        let class = extractions[i].extraction_class.as_str();
        let mut j: usize = 0;
        while j < counts.len() && !strings_equal(counts[j].0.as_str(), class)
            invariant
                j <= counts@.len(),
                counts@.len() == f.len(),
                forall|k: int| 0 <= k < counts@.len() ==> (#[trigger] counts@[k]).0@ == f[k],
                forall|k: int| 0 <= k < j ==> f[k] != class@,
            decreases counts@.len() - j,
        {
            j = j + 1;
        }
        if j < counts.len() {
            let ghost old_counts = counts@;
            let name = counts[j].0.clone();
            let c = counts[j].1;
            counts.set(j, (name, c + 1));
            proof {
                assert(f[j as int] == class@);
                assert(f.contains(class@));
                assert(classes_in_order(post) == f);
                lemma_classes_distinct(pre);
                assert forall|k: int| 0 <= k < counts@.len() implies (#[trigger] counts@[k]).1 == class_count(
                    post,
                    classes_in_order(post)[k],
                ) by {
                    if k != j {
                        assert(counts@[k] == old_counts[k]);
                    }
                }
            }
        } else {
            proof {
                if f.contains(class@) {
                    let q = choose|q: int| 0 <= q < f.len() && f[q] == class@;
                    assert(false);
                }
                assert(classes_in_order(post) == f.push(class@));
                lemma_class_count_absent(pre, class@);
            }
            counts.push((class.to_string(), 1));
        }
        i = i + 1;
    }
    proof {
        assert(es.subrange(0, es.len() as int) =~= es);
    }
    counts
}


// ---------------------------------------------------------------------------
// Highlighting extractions in HTML.

/// A span to highlight: start, end and the index of its extraction.
pub type Span = (usize, usize, usize);

/// The spans of the extractions with a known, non-empty position within a
/// text of `len` bytes, in the order of the extractions.
pub open spec fn valid_spans(es: Seq<Extraction>, len: int) -> Seq<Span>
    decreases es.len(),
{
    if es.len() == 0 {
        seq![]
    } else {
        let r = valid_spans(es.drop_last(), len);
        match es.last().char_interval {
            Some(ci) => match (ci.start_pos, ci.end_pos) {
                (Some(st), Some(en)) => if st < en && en <= len { r.push((st, en, (es.len() - 1) as usize)) } else { r },
                _ => r,
            },
            None => r,
        }
    }
}

/// Where a span starting at `key` goes in `sorted`, searching from `i`:
/// before the first span that starts later.
pub open spec fn insert_position(sorted: Seq<Span>, key: usize, i: int) -> int
    decreases sorted.len() - i,
{
    if i < 0 || i >= sorted.len() {
        sorted.len() as int
    } else if sorted[i].0 > key {
        i
    } else {
        insert_position(sorted, key, i + 1)
    }
}

/// The spans ordered by start; spans with equal starts keep their order.
pub open spec fn sorted_by_start(s: Seq<Span>) -> Seq<Span>
    decreases s.len(),
{
    if s.len() == 0 {
        s
    } else {
        let t = sorted_by_start(s.drop_last());
        t.insert(insert_position(t, s.last().0, 0), s.last())
    }
}

/// The spans from the `i`th on that start at or after the end of the last
/// span kept, `last_end` for the first.
pub open spec fn non_overlapping(s: Seq<Span>, i: int, last_end: usize) -> Seq<Span>
    decreases s.len() - i,
{
    if i < 0 || i >= s.len() {
        seq![]
    } else if s[i].0 >= last_end {
        seq![s[i]] + non_overlapping(s, i + 1, s[i].1)
    } else {
        non_overlapping(s, i + 1, last_end)
    }
}

/// The characters of the bytes from `a` to `z`.
pub open spec fn text_between(b: Seq<u8>, a: int, z: int) -> Seq<char> {
    decode_utf8(b.subrange(a, z))
}

/// A highlighted extraction: its class and text as data attributes, the
/// covered text as content, all escaped.
pub open spec fn highlight_span(class: Seq<char>, text: Seq<char>, body: Seq<char>) -> Seq<char> {
    "<span class=\"extraction-highlight\" data-class=\""@ + html_escaped(class) + "\" data-text=\""@
        + html_escaped(text) + "\">"@ + html_escaped(body) + "</span>"@
}

/// The escaped text between `from` (moved back to a character boundary)
/// and `to`, when it is not empty.
pub open spec fn plain_gap(b: Seq<u8>, from: int, to: int) -> Seq<char> {
    let sl = find_char_boundary_spec(b, from);
    if sl < to { html_escaped(text_between(b, sl, to)) } else { seq![] }
}

/// The HTML of the text from `last_pos` on with the spans from the `i`th on
/// highlighted: a span whose ends, moved back to character boundaries,
/// enclose text is drawn after the text since the last highlight; any other
/// span is left out; at the end the rest of the text.
pub open spec fn render_highlights(b: Seq<u8>, es: Seq<Extraction>, f: Seq<Span>, i: int, last_pos: int) -> Seq<char>
    decreases f.len() - i,
{
    if i < 0 || i >= f.len() {
        if last_pos < b.len() { plain_gap(b, last_pos, b.len() as int) } else { seq![] }
    } else {
        let ss = find_char_boundary_spec(b, f[i].0 as int);
        let se = find_char_boundary_spec(b, f[i].1 as int);
        let before = if ss > last_pos { plain_gap(b, last_pos, ss) } else { seq![] };
        if ss < se && se <= b.len() {
            let e = es[f[i].2 as int];
            before + highlight_span(e.extraction_class@, e.extraction_text@, text_between(b, ss, se))
                + render_highlights(b, es, f, i + 1, se)
        } else {
            render_highlights(b, es, f, i + 1, last_pos)
        }
    }
}

/// The HTML of a text with the extractions of a document highlighted; see
/// [`render_highlights`]. Spans are taken in order of their start, and a
/// span that starts before the end of the last one kept is left out.
pub open spec fn highlighted_html(text: Seq<char>, extractions: Option<Vec<Extraction>>) -> Seq<char> {
    let b = encode_utf8(text);
    match extractions {
        Some(v) => render_highlights(
            b,
            v@,
            non_overlapping(sorted_by_start(valid_spans(v@, b.len() as int)), 0, 0),
            0,
            0,
        ),
        None => html_escaped(text),
    }
}

proof fn lemma_valid_spans(es: Seq<Extraction>, len: int)
    requires
        es.len() <= usize::MAX,
    ensures
        forall|k: int| 0 <= k < valid_spans(es, len).len() ==> {
            let sp = #[trigger] valid_spans(es, len)[k];
            &&& sp.0 < sp.1 <= len
            &&& sp.2 < es.len()
        },
    decreases es.len(),
{
    if es.len() > 0 {
        lemma_valid_spans(es.drop_last(), len);
        let r = valid_spans(es.drop_last(), len);
        let v = valid_spans(es, len);
        assert(v.len() == r.len() || v.len() == r.len() + 1);
        assert forall|k: int| 0 <= k < v.len() implies {
            let sp = #[trigger] v[k];
            &&& sp.0 < sp.1 <= len
            &&& sp.2 < es.len()
        } by {
            if k < r.len() {
                assert(v[k] == r[k]);
            }
        }
    }
}

proof fn lemma_sorted_elements(s: Seq<Span>, len: int, n: int)
    requires
        forall|k: int| 0 <= k < s.len() ==> (#[trigger] s[k]).0 < s[k].1 <= len && s[k].2 < n,
    ensures
        sorted_by_start(s).len() == s.len(),
        forall|k: int| 0 <= k < s.len() ==> (#[trigger] sorted_by_start(s)[k]).0 < sorted_by_start(s)[k].1 <= len
            && sorted_by_start(s)[k].2 < n,
    decreases s.len(),
{
    if s.len() > 0 {
        lemma_sorted_elements(s.drop_last(), len, n);
        let t = sorted_by_start(s.drop_last());
        lemma_insert_position(t, s.last().0, 0);
        let p = insert_position(t, s.last().0, 0);
        t.insert_ensures(p, s.last());
        assert forall|k: int| 0 <= k < s.len() implies (#[trigger] sorted_by_start(s)[k]).0 < sorted_by_start(s)[k].1
            <= len && sorted_by_start(s)[k].2 < n by {
            if k < p {
                assert(t.insert(p, s.last())[k] == t[k]);
            } else if k > p {
                assert(t.insert(p, s.last())[(k - 1) + 1] == t[k - 1]);
            }
        }
    }
}

proof fn lemma_insert_position(t: Seq<Span>, key: usize, i: int)
    requires
        0 <= i <= t.len(),
    ensures
        i <= insert_position(t, key, i) <= t.len(),
    decreases t.len() - i,
{
    if i < t.len() && t[i].0 <= key {
        lemma_insert_position(t, key, i + 1);
    }
}

pub(crate) fn escaped_piece(text: &str, from: usize, to: usize) -> (r: String)
    requires
        from <= to <= bytes(text).len(),
        is_char_boundary(bytes(text), from as int),
        is_char_boundary(bytes(text), to as int),
    ensures
        r@ == html_escaped(text_between(bytes(text), from as int, to as int)),
{
    let piece = substr(text, from, to);
    proof {
        crate::text::lemma_chars_of(piece);
    }
    html_escape(piece)
}

/// The spans kept apart start at or after `last_end`, each ends no later
/// than any later one starts, and each stays a non-empty stretch of the text.
proof fn lemma_non_overlapping_apart(s: Seq<Span>, i: int, last_end: usize, len: int)
    requires
        0 <= i,
        forall|k: int| 0 <= k < s.len() ==> (#[trigger] s[k]).0 < s[k].1 <= len,
    ensures
        forall|k: int| 0 <= k < non_overlapping(s, i, last_end).len() ==> {
            let x = #[trigger] non_overlapping(s, i, last_end)[k];
            &&& x.0 < x.1 <= len
            &&& x.0 >= last_end
        },
        forall|a: int, c: int| 0 <= a < c < non_overlapping(s, i, last_end).len() ==>
            (#[trigger] non_overlapping(s, i, last_end)[a]).1 <= (#[trigger] non_overlapping(s, i, last_end)[c]).0,
    decreases s.len() - i,
{
    if i < s.len() {
        if s[i].0 >= last_end {
            lemma_non_overlapping_apart(s, i + 1, s[i].1, len);
            let rest = non_overlapping(s, i + 1, s[i].1);
            let r = non_overlapping(s, i, last_end);
            assert(r == seq![s[i]] + rest);
            assert forall|k: int| 0 <= k < r.len() implies {
                let x = #[trigger] r[k];
                &&& x.0 < x.1 <= len
                &&& x.0 >= last_end
            } by {
                if k > 0 {
                    assert(r[k] == rest[k - 1]);
                    assert(rest[k - 1].0 >= s[i].1);
                } else {
                    assert(r[k] == s[i]);
                }
            }
            assert forall|a: int, c: int| 0 <= a < c < r.len() implies (#[trigger] r[a]).1 <= (#[trigger] r[c]).0 by {
                assert(r[c] == rest[c - 1]);
                if a > 0 {
                    assert(r[a] == rest[a - 1]);
                }
            }
        } else {
            lemma_non_overlapping_apart(s, i + 1, last_end, len);
            assert(non_overlapping(s, i, last_end) == non_overlapping(s, i + 1, last_end));
        }
    }
}

/// A highlighted extraction shows its content, and its tags nest.
proof fn lemma_highlight_span_reads(class: Seq<char>, text: Seq<char>, body: Seq<char>, r: Seq<char>, d: int)
    requires
        0 <= d,
    ensures
        visible_text(highlight_span(class, text, body) + r) == body + visible_text(r),
        tags_balanced(highlight_span(class, text, body) + r, d) == tags_balanced(r, d),
{
    let l1 = "<span class=\"extraction-highlight\" data-class=\""@;
    let l2 = "\" data-text=\""@;
    let l3 = "\">"@;
    reveal_strlit("<span class=\"extraction-highlight\" data-class=\"");
    reveal_strlit("\" data-text=\"");
    reveal_strlit("\">");
    reveal_strlit("</span>");
    let e1 = html_escaped(class);
    let e2 = html_escaped(text);
    lemma_escaped(class, seq![], 0);
    lemma_escaped(text, seq![], 0);
    let head = l1.drop_first();
    assert(lacks(head, '>'));
    assert(lacks(l2, '>'));
    assert(lacks(seq!['"'], '>'));
    lemma_lacks_concat(head, e1, '>');
    lemma_lacks_concat(head + e1, l2, '>');
    lemma_lacks_concat(head + e1 + l2, e2, '>');
    lemma_lacks_concat(head + e1 + l2 + e2, seq!['"'], '>');
    let inner = head + e1 + l2 + e2 + seq!['"'];
    let close_inner = seq!['/', 's', 'p', 'a', 'n'];
    let tail = "</span>"@ + r;
    assert(tail =~= seq!['<'] + close_inner + seq!['>'] + r);
    lemma_tag(close_inner, r, d + 1);
    lemma_escaped(body, tail, d + 1);
    let after = html_escaped(body) + tail;
    assert(l1 =~= seq!['<'] + head);
    assert(l3 =~= seq!['"'] + seq!['>']);
    assert(highlight_span(class, text, body) + r =~= seq!['<'] + inner + seq!['>'] + after);
    assert(inner[0] == 's');
    lemma_tag(inner, after, d);
}

/// From `last_pos` on, the highlighted rendering shows the rest of the
/// text, and its tags nest.
proof fn lemma_render_highlights_reads(b: Seq<u8>, es: Seq<Extraction>, f: Seq<Span>, i: int, last_pos: int)
    requires
        valid_utf8(b),
        0 <= last_pos <= b.len(),
        is_char_boundary(b, last_pos),
        0 <= i,
        forall|k: int| 0 <= k < f.len() ==> (#[trigger] f[k]).0 < f[k].1 <= b.len(),
        forall|k: int| i <= k < f.len() ==> (#[trigger] f[k]).0 >= last_pos,
        forall|a: int, c: int| 0 <= a < c < f.len() ==> (#[trigger] f[a]).1 <= (#[trigger] f[c]).0,
    ensures
        visible_text(render_highlights(b, es, f, i, last_pos)) == text_between(b, last_pos, b.len() as int),
        tags_balanced(render_highlights(b, es, f, i, last_pos), 0),
    decreases f.len() - i,
{
    is_char_boundary_start_end_of_seq(b);
    if last_pos < b.len() {
        assert(char_floor(b, last_pos) == last_pos);
    }
    if i >= f.len() {
        if last_pos < b.len() {
            let t = text_between(b, last_pos, b.len() as int);
            lemma_escaped(t, seq![], 0);
            assert(html_escaped(t) + Seq::<char>::empty() =~= html_escaped(t));
            assert(t + Seq::<char>::empty() =~= t);
        } else {
            assert(b.subrange(last_pos, b.len() as int) =~= Seq::<u8>::empty());
            assert(text_between(b, last_pos, b.len() as int) =~= Seq::<char>::empty());
        }
    } else {
        let x = f[i];
        let ss = find_char_boundary_spec(b, x.0 as int);
        let se = find_char_boundary_spec(b, x.1 as int);
        if (x.0 as int) < b.len() {
            lemma_char_floor(b, x.0 as int);
            lemma_char_floor_max(b, x.0 as int, last_pos);
        }
        if (x.1 as int) < b.len() {
            lemma_char_floor(b, x.1 as int);
        }
        if ss < se && se <= b.len() {
            let e = es[x.2 as int];
            let body = text_between(b, ss, se);
            let rest = render_highlights(b, es, f, i + 1, se);
            lemma_render_highlights_reads(b, es, f, i + 1, se);
            lemma_highlight_span_reads(e.extraction_class@, e.extraction_text@, body, rest, 0);
            let mid = highlight_span(e.extraction_class@, e.extraction_text@, body) + rest;
            lemma_text_between_split(b, ss, se, b.len() as int);
            if ss > last_pos {
                let gap = text_between(b, last_pos, ss);
                lemma_escaped(gap, mid, 0);
                assert(render_highlights(b, es, f, i, last_pos) =~= html_escaped(gap) + mid);
                lemma_text_between_split(b, last_pos, ss, b.len() as int);
                assert(gap + (body + text_between(b, se, b.len() as int)) =~= gap + body + text_between(b, se, b.len() as int));
            } else {
                assert(render_highlights(b, es, f, i, last_pos) =~= mid);
            }
        } else {
            lemma_render_highlights_reads(b, es, f, i + 1, last_pos);
        }
    }
}

/// The highlighted HTML of a document shows its text exactly once: leaving
/// out the tags and turning the entities back into characters gives the
/// text. Its tags nest properly: every tag that opens is closed, and no tag
/// closes one that is not open.
pub proof fn lemma_highlighted_html_shows_text(text: Seq<char>, extractions: Option<Vec<Extraction>>)
    requires
        extractions matches Some(v) ==> v@.len() <= usize::MAX,
    ensures
        visible_text(highlighted_html(text, extractions)) == text,
        tags_balanced(highlighted_html(text, extractions), 0),
{
    let b = encode_utf8(text);
    encode_utf8_valid_utf8(text);
    encode_utf8_decode_utf8(text);
    is_char_boundary_start_end_of_seq(b);
    match extractions {
        Some(v) => {
            let spans = valid_spans(v@, b.len() as int);
            lemma_valid_spans(v@, b.len() as int);
            lemma_sorted_elements(spans, b.len() as int, v@.len() as int);
            let sorted = sorted_by_start(spans);
            lemma_non_overlapping_apart(sorted, 0, 0, b.len() as int);
            let f = non_overlapping(sorted, 0, 0);
            lemma_render_highlights_reads(b, v@, f, 0, 0);
            assert(b.subrange(0, b.len() as int) =~= b);
        },
        None => {
            lemma_escaped(text, seq![], 0);
            assert(html_escaped(text) + Seq::<char>::empty() =~= html_escaped(text));
            assert(text + Seq::<char>::empty() =~= text);
        },
    }
}

/// Highlights the extractions of `annotated_document` in `text` as HTML;
/// see [`highlighted_html`].
pub fn highlight_text_html(text: &str, annotated_document: &AnnotatedDocument) -> (r: LangExtractResult<String>)
    requires
        annotated_document.extractions matches Some(v) ==> v@.len() <= usize::MAX,
    ensures
        r matches Ok(s) && s@ == highlighted_html(text@, annotated_document.extractions),
{
    match &annotated_document.extractions {
        Some(extractions) => {
            let ghost b = bytes(text);
            let ghost es = extractions@;
            let n = byte_len(text);
            proof {
                lemma_str_valid(text);
            }
            // The valid spans.
            let mut intervals: Vec<Span> = Vec::new();
            let mut i: usize = 0;
            while i < extractions.len()
                invariant
                    es == extractions@,
                    n == b.len(),
                    i <= es.len(),
                    intervals@ == valid_spans(es.subrange(0, i as int), n as int),
                decreases es.len() - i,
            {
                proof {
                    assert(es.subrange(0, i + 1).drop_last() =~= es.subrange(0, i as int));
                    assert(es.subrange(0, i + 1).last() == es[i as int]);
                }
                if let Some(interval) = &extractions[i].char_interval {
                    if let (Some(start), Some(end)) = (interval.start_pos, interval.end_pos) {
                        if start < end && end <= n {
                            intervals.push((start, end, i));
                        }
                    }
                }
                i = i + 1;
            }
            proof {
                assert(es.subrange(0, es.len() as int) =~= es);
                lemma_valid_spans(es, n as int);
            }
            // Ordered by start, stably.
            let mut sorted: Vec<Span> = Vec::new();
            let mut k: usize = 0;
            while k < intervals.len()
                invariant
                    k <= intervals@.len(),
                    sorted@ == sorted_by_start(intervals@.subrange(0, k as int)),
                decreases intervals@.len() - k,
            {
                let x = intervals[k];
                let ghost t = sorted@;
                let mut p: usize = 0;
                while p < sorted.len() && sorted[p].0 <= x.0
                    invariant
                        p <= sorted@.len(),
                        sorted@ == t,
                        insert_position(t, x.0, 0) == insert_position(t, x.0, p as int),
                    decreases sorted@.len() - p,
                {
                    p = p + 1;
                }
                proof {
                    assert(intervals@.subrange(0, k + 1).drop_last() =~= intervals@.subrange(0, k as int));
                    assert(intervals@.subrange(0, k + 1).last() == x);
                }
                sorted.insert(p, x);
                k = k + 1;
            }
            proof {
                assert(intervals@.subrange(0, intervals@.len() as int) =~= intervals@);
                lemma_sorted_elements(intervals@, n as int, es.len() as int);
            }
            // Dropping spans that overlap an earlier one.
            let mut filtered: Vec<Span> = Vec::new();
            let mut last_end: usize = 0;
            let mut j: usize = 0;
            let ghost all = non_overlapping(sorted@, 0, 0);
            while j < sorted.len()
                invariant
                    j <= sorted@.len(),
                    all == filtered@ + non_overlapping(sorted@, j as int, last_end),
                    forall|q: int| 0 <= q < filtered@.len() ==> (#[trigger] filtered@[q]).0 < filtered@[q].1 <= n
                        && filtered@[q].2 < es.len(),
                    forall|q: int| 0 <= q < sorted@.len() ==> (#[trigger] sorted@[q]).0 < sorted@[q].1 <= n
                        && sorted@[q].2 < es.len(),
                decreases sorted@.len() - j,
            {
                let x = sorted[j];
                if x.0 >= last_end {
                    proof {
                        assert(filtered@.push(x) + non_overlapping(sorted@, j + 1, x.1) =~= filtered@ + (seq![x]
                            + non_overlapping(sorted@, j + 1, x.1)));
                    }
                    filtered.push(x);
                    last_end = x.1;
                }
                j = j + 1;
            }
            proof {
                assert(filtered@ + seq![] =~= filtered@);
            }
            // Rendering.
            let mut result = String::new();
            let mut last_pos: usize = 0;
            let mut q: usize = 0;
            while q < filtered.len()
                invariant
                    b == bytes(text),
                    valid_utf8(b),
                    n == b.len(),
                    es == extractions@,
                    last_pos <= n,
                    q <= filtered@.len(),
                    all == filtered@,
                    forall|w: int| 0 <= w < filtered@.len() ==> (#[trigger] filtered@[w]).0 < filtered@[w].1 <= n
                        && filtered@[w].2 < es.len(),
                    render_highlights(b, es, all, 0, 0) == result@ + render_highlights(b, es, all, q as int, last_pos as int),
                decreases filtered@.len() - q,
            {
                let (start, end, idx) = filtered[q];
                let safe_start = find_char_boundary(text, start);
                let safe_end = find_char_boundary(text, end);
                if safe_start < safe_end && safe_end <= n {
                    let ghost before_result = result@;
                    if safe_start > last_pos {
                        let safe_last_pos = find_char_boundary(text, last_pos);
                        if safe_last_pos < safe_start {
                            let gap = escaped_piece(text, safe_last_pos, safe_start);
                            push_str(&mut result, gap.as_str());
                        }
                    }
                    let ghost gap_part = result@.subrange(before_result.len() as int, result@.len() as int);
                    proof {
                        assert(result@ =~= before_result + gap_part);
                        assert(gap_part == (if safe_start > last_pos { plain_gap(b, last_pos as int, safe_start as int) } else { seq![] }));
                    }
                    let extraction = &extractions[idx];
                    push_str(&mut result, "<span class=\"extraction-highlight\" data-class=\"");
                    let c = html_escape(extraction.extraction_class.as_str());
                    push_str(&mut result, c.as_str());
                    push_str(&mut result, "\" data-text=\"");
                    let t = html_escape(extraction.extraction_text.as_str());
                    push_str(&mut result, t.as_str());
                    push_str(&mut result, "\">");
                    let body = escaped_piece(text, safe_start, safe_end);
                    push_str(&mut result, body.as_str());
                    push_str(&mut result, "</span>");
                    proof {
                        assert(result@ =~= before_result + gap_part + highlight_span(
                            extraction.extraction_class@,
                            extraction.extraction_text@,
                            text_between(b, safe_start as int, safe_end as int),
                        ));
                    }
                    last_pos = safe_end;
                }
                q = q + 1;
            }
            proof {
                is_char_boundary_start_end_of_seq(b);
            }
            if last_pos < n {
                let safe_last_pos = find_char_boundary(text, last_pos);
                if safe_last_pos < n {
                    let gap = escaped_piece(text, safe_last_pos, n);
                    push_str(&mut result, gap.as_str());
                }
            }
            proof {
                assert(result@ =~= render_highlights(b, es, all, 0, 0));
            }
            Ok(result)
        },
        None => Ok(html_escape(text)),
    }
}


// ---------------------------------------------------------------------------
// CSV export.

/// The name of an alignment status, `None` when there is none.
pub open spec fn status_name(st: Option<AlignmentStatus>) -> Seq<char> {
    match st {
        Some(AlignmentStatus::MatchExact) => "MatchExact"@,
        Some(AlignmentStatus::MatchGreater) => "MatchGreater"@,
        Some(AlignmentStatus::MatchLesser) => "MatchLesser"@,
        Some(AlignmentStatus::MatchFuzzy) => "MatchFuzzy"@,
        None => "None"@,
    }
}

fn push_status_name(out: &mut String, st: Option<AlignmentStatus>)
    ensures
        final(out)@ == old(out)@ + status_name(st),
{
    match st {
        Some(AlignmentStatus::MatchExact) => push_str(out, "MatchExact"),
        Some(AlignmentStatus::MatchGreater) => push_str(out, "MatchGreater"),
        Some(AlignmentStatus::MatchLesser) => push_str(out, "MatchLesser"),
        Some(AlignmentStatus::MatchFuzzy) => push_str(out, "MatchFuzzy"),
        None => push_str(out, "None"),
    }
}

/// The decimal rendering of a number, empty when there is none.
pub open spec fn opt_decimal(n: Option<usize>) -> Seq<char> {
    match n {
        Some(x) => decimal(x as nat),
        None => seq![],
    }
}

/// The first fields of a CSV row: class, text and description.
pub open spec fn csv_row_head(e: Extraction) -> Seq<char> {
    csv_escaped(e.extraction_class@) + ","@ + csv_escaped(e.extraction_text@) + ","@ + match e.description {
        Some(d) => csv_escaped(d@),
        None => seq![],
    }
}

/// The position fields of a CSV row: start and end (0 when unknown) and the
/// quoted alignment status, or empty fields and `None` without a position.
pub open spec fn csv_row_positions(e: Extraction) -> Seq<char> {
    match e.char_interval {
        Some(ci) => ","@ + decimal(
            match ci.start_pos {
                Some(x) => x as nat,
                None => 0,
            },
        ) + ","@ + decimal(
            match ci.end_pos {
                Some(x) => x as nat,
                None => 0,
            },
        ) + ",\""@ + status_name(e.alignment_status) + "\","@,
        None => ",,,None,"@,
    }
}

/// One CSV row of an extraction: class, text, description, with positions
/// and the alignment status when positions are shown, and the group index;
/// a row ends with a newline.
pub open spec fn csv_row(e: Extraction, show_char_intervals: bool) -> Seq<char> {
    csv_row_head(e) + (if show_char_intervals { csv_row_positions(e) } else { ","@ }) + opt_decimal(e.group_index)
        + "\n"@
}

/// The rows of the extractions, one after another.
pub open spec fn csv_rows(es: Seq<Extraction>, show_char_intervals: bool) -> Seq<char>
    decreases es.len(),
{
    if es.len() == 0 {
        seq![]
    } else {
        csv_rows(es.drop_last(), show_char_intervals) + csv_row(es.last(), show_char_intervals)
    }
}

/// The CSV header line.
pub open spec fn csv_header(show_char_intervals: bool) -> Seq<char> {
    if show_char_intervals {
        "extraction_class,extraction_text,description,start_char,end_char,alignment_status,group_index\n"@
    } else {
        "extraction_class,extraction_text,description,group_index\n"@
    }
}

fn push_csv_head(out: &mut String, e: &Extraction)
    ensures
        final(out)@ == old(out)@ + csv_row_head(*e),
{
    let class = csv_escape(e.extraction_class.as_str());
    push_str(out, class.as_str());
    push_str(out, ",");
    let text = csv_escape(e.extraction_text.as_str());
    push_str(out, text.as_str());
    push_str(out, ",");
    if let Some(d) = &e.description {
        let desc = csv_escape(d.as_str());
        push_str(out, desc.as_str());
    }
    proof {
        assert(final(out)@ =~= old(out)@ + csv_row_head(*e));
    }
}

fn push_csv_positions(out: &mut String, e: &Extraction)
    ensures
        final(out)@ == old(out)@ + csv_row_positions(*e),
{
    match &e.char_interval {
        Some(ci) => {
            push_str(out, ",");
            let start = match ci.start_pos {
                Some(x) => x,
                None => 0,
            };
            push_decimal(out, start);
            push_str(out, ",");
            let end = match ci.end_pos {
                Some(x) => x,
                None => 0,
            };
            push_decimal(out, end);
            push_str(out, ",\"");
            push_status_name(out, e.alignment_status);
            push_str(out, "\",");
        },
        None => {
            push_str(out, ",,,None,");
        },
    }
    proof {
        assert(final(out)@ =~= old(out)@ + csv_row_positions(*e));
    }
}

fn push_csv_row(out: &mut String, e: &Extraction, show_char_intervals: bool)
    ensures
        final(out)@ == old(out)@ + csv_row(*e, show_char_intervals),
{
    push_csv_head(out, e);
    if show_char_intervals {
        push_csv_positions(out, e);
    } else {
        push_str(out, ",");
    }
    if let Some(g) = e.group_index {
        push_decimal(out, g);
    }
    push_str(out, "\n");
    proof {
        assert(final(out)@ =~= old(out)@ + csv_row(*e, show_char_intervals));
    }
}

/// The extractions of a document as CSV: a header and one row per
/// extraction; see [`csv_row`].
pub fn export_csv(annotated_document: &AnnotatedDocument, config: &ExportConfig) -> (r: LangExtractResult<String>)
    ensures
        r matches Ok(s) && s@ == csv_header(config.show_char_intervals) + match annotated_document.extractions {
            Some(v) => csv_rows(v@, config.show_char_intervals),
            None => seq![],
        },
{
    let mut csv = String::new();
    if config.show_char_intervals {
        push_str(&mut csv, "extraction_class,extraction_text,description,start_char,end_char,alignment_status,group_index\n");
    } else {
        push_str(&mut csv, "extraction_class,extraction_text,description,group_index\n");
    }
    let ghost header = csv@;
    if let Some(extractions) = &annotated_document.extractions {
        let mut i: usize = 0;
        while i < extractions.len()
            invariant
                i <= extractions@.len(),
                csv@ == header + csv_rows(extractions@.subrange(0, i as int), config.show_char_intervals),
            decreases extractions@.len() - i,
        {
            proof {
                assert(extractions@.subrange(0, i + 1).drop_last() =~= extractions@.subrange(0, i as int));
            }
            push_csv_row(&mut csv, &extractions[i], config.show_char_intervals);
            proof {
                assert(csv@ =~= header + csv_rows(extractions@.subrange(0, i + 1), config.show_char_intervals));
            }
            i = i + 1;
        }
        proof {
            assert(extractions@.subrange(0, extractions@.len() as int) =~= extractions@);
        }
    } else {
        proof {
            assert(csv@ =~= header + seq![]);
        }
    }
    Ok(csv)
}


// ---------------------------------------------------------------------------
// Plain-text report.

/// `n` copies of `c`.
pub open spec fn repeat_char(c: char, n: nat) -> Seq<char> {
    Seq::new(n, |_i: int| c)
}

fn push_repeat(out: &mut String, c: char, n: usize)
    ensures
        final(out)@ == old(out)@ + repeat_char(c, n as nat),
{
    let mut i: usize = 0;
    while i < n
        invariant
            i <= n,
            out@ == old(out)@ + repeat_char(c, i as nat),
        decreases n - i,
    {
        push_char(out, c);
        proof {
            assert(repeat_char(c, (i + 1) as nat) =~= repeat_char(c, i as nat).push(c));
        }
        i = i + 1;
    }
}

/// The text of an optional string, or `default`.
pub open spec fn text_or(o: Option<String>, default: Seq<char>) -> Seq<char> {
    match o {
        Some(s) => s@,
        None => default,
    }
}

fn str_or<'a>(o: &'a Option<String>, default: &'a str) -> (r: &'a str)
    ensures
        r@ == text_or(*o, default@),
        bytes(r) == encode_utf8(r@),
{
    match o {
        Some(s) => s.as_str(),
        None => default,
    }
}

/// How Rust's `Debug` shows an optional number.
pub open spec fn debug_opt(o: Option<usize>) -> Seq<char> {
    match o {
        Some(x) => "Some("@ + decimal(x as nat) + ")"@,
        None => "None"@,
    }
}

/// How Rust's `Debug` shows a character interval.
pub open spec fn debug_interval(ci: CharInterval) -> Seq<char> {
    "CharInterval { start_pos: "@ + debug_opt(ci.start_pos) + ", end_pos: "@ + debug_opt(ci.end_pos) + " }"@
}

fn push_debug_opt(out: &mut String, o: Option<usize>)
    ensures
        final(out)@ == old(out)@ + debug_opt(o),
{
    match o {
        Some(x) => {
            push_str(out, "Some(");
            push_decimal(out, x);
            push_str(out, ")");
        },
        None => push_str(out, "None"),
    }
}

/// The entry of the `i`th extraction (from 0) in the text report.
pub open spec fn text_entry(i: nat, e: Extraction, show: bool) -> Seq<char> {
    decimal(i + 1) + ". ["@ + e.extraction_class@ + "] "@ + e.extraction_text@ + "\n"@ + position_line(e, show)
        + description_line(e) + "\n"@
}

/// The entries of the first `n` extractions in the text report.
pub open spec fn text_entries(es: Seq<Extraction>, show: bool, n: int) -> Seq<char>
    decreases n,
{
    if n <= 0 || n > es.len() {
        seq![]
    } else {
        text_entries(es, show, n - 1) + text_entry((n - 1) as nat, es[n - 1], show)
    }
}

/// Each class with its number of extractions, in the order the classes
/// first occur.
pub open spec fn class_pairs(es: Seq<Extraction>) -> Seq<(Seq<char>, nat)> {
    classes_in_order(es).map_values(|c: Seq<char>| (c, class_count(es, c)))
}

/// The class lines of the text report for the first `n` classes.
pub open spec fn class_lines(pairs: Seq<(Seq<char>, nat)>, n: int) -> Seq<char>
    decreases n,
{
    if n <= 0 || n > pairs.len() {
        seq![]
    } else {
        class_lines(pairs, n - 1) + "     • "@ + pairs[n - 1].0 + ": "@ + decimal(pairs[n - 1].1) + " instance(s)\n"@
    }
}

/// The plain-text report of an annotated document: its text, its
/// extractions and statistics, with classes in the order they first occur.
pub open spec fn text_report(doc: AnnotatedDocument, show: bool) -> Seq<char> {
    let text = text_or(doc.text, "No text"@);
    let len = encode_utf8(text).len();
    "📄 EXTRACTION VISUALIZATION\n"@ + repeat_char('=', 50) + "\n"@ + "📝 Document Text ("@ + decimal(len) + " chars):\n"@
        + "   "@ + text + "\n\n"@ + (match doc.extractions {
        Some(v) => "🎯 Found "@ + decimal(v@.len()) + " Extractions:\n"@ + repeat_char('-', 30) + "\n"@ + text_entries(
            v@,
            show,
            v@.len() as int,
        ),
        None => "ℹ️  No extractions found\n"@,
    }) + "📊 Statistics:\n"@ + repeat_char('-', 15) + "\n"@ + "   Document ID: "@ + text_or(doc.document_id, "None"@)
        + "\n"@ + "   Text Length: "@ + decimal(len) + " characters\n"@ + "   Total Extractions: "@ + decimal(
        crate::data::spec_extraction_count(doc),
    ) + "\n"@ + match doc.extractions {
        Some(v) => "   Extraction Classes:\n"@ + class_lines(class_pairs(v@), class_pairs(v@).len() as int),
        None => seq![],
    }
}

/// The position line of an entry in the text report, when shown.
pub open spec fn position_line(e: Extraction, show: bool) -> Seq<char> {
    match e.char_interval {
        Some(ci) => if show { "   Position: "@ + debug_interval(ci) + "\n"@ } else { seq![] },
        None => seq![],
    }
}

/// The description line of an entry in the text report, when it has one.
pub open spec fn description_line(e: Extraction) -> Seq<char> {
    match e.description {
        Some(d) => "   Description: "@ + d@ + "\n"@,
        None => seq![],
    }
}

fn push_position_line(out: &mut String, e: &Extraction, show: bool)
    ensures
        final(out)@ == old(out)@ + position_line(*e, show),
{
    if show {
        if let Some(interval) = &e.char_interval {
            push_str(out, "   Position: ");
            push_str(out, "CharInterval { start_pos: ");
            push_debug_opt(out, interval.start_pos);
            push_str(out, ", end_pos: ");
            push_debug_opt(out, interval.end_pos);
            push_str(out, " }");
            push_str(out, "\n");
            proof {
                assert(final(out)@ =~= old(out)@ + position_line(*e, show));
            }
            return;
        }
    }
    proof {
        assert(out@ =~= old(out)@ + position_line(*e, show));
    }
}

fn push_description_line(out: &mut String, e: &Extraction)
    ensures
        final(out)@ == old(out)@ + description_line(*e),
{
    if let Some(description) = &e.description {
        push_str(out, "   Description: ");
        push_str(out, description.as_str());
        push_str(out, "\n");
        proof {
            assert(final(out)@ =~= old(out)@ + description_line(*e));
        }
    } else {
        proof {
            assert(out@ =~= old(out)@ + description_line(*e));
        }
    }
}

fn push_text_entry(out: &mut String, i: usize, e: &Extraction, show: bool)
    requires
        i < usize::MAX,
    ensures
        final(out)@ == old(out)@ + text_entry(i as nat, *e, show),
{
    push_decimal(out, i + 1);
    push_str(out, ". [");
    push_str(out, e.extraction_class.as_str());
    push_str(out, "] ");
    push_str(out, e.extraction_text.as_str());
    push_str(out, "\n");
    push_position_line(out, e, show);
    push_description_line(out, e);
    push_str(out, "\n");
    proof {
        assert(final(out)@ =~= old(out)@ + text_entry(i as nat, *e, show));
    }
}

fn push_class_lines(out: &mut String, extractions: &Vec<Extraction>)
    ensures
        final(out)@ == old(out)@ + class_lines(class_pairs(extractions@), class_pairs(extractions@).len() as int),
{
    let _n = extractions.len();
    let counts = count_extraction_classes(extractions.as_slice());
    let ghost pairs = class_pairs(extractions@);
    let mut k: usize = 0;
    while k < counts.len()
        invariant
            k <= counts@.len(),
            pairs == class_pairs(extractions@),
            counts@.len() == pairs.len(),
            forall|q: int| 0 <= q < counts@.len() ==> (#[trigger] counts@[q]).0@ == pairs[q].0 && counts@[q].1 == pairs[q].1,
            out@ == old(out)@ + class_lines(pairs, k as int),
        decreases counts@.len() - k,
    {
        let (class, count) = (&counts[k].0, counts[k].1);
        push_str(out, "     • ");
        push_str(out, class.as_str());
        push_str(out, ": ");
        push_decimal(out, count);
        push_str(out, " instance(s)\n");
        k = k + 1;
    }
}

/// The plain-text report of an annotated document; see [`text_report`].
pub fn visualize_text(annotated_document: &AnnotatedDocument, show_char_intervals: bool) -> (r: LangExtractResult<String>)
    ensures
        r matches Ok(s) && s@ == text_report(*annotated_document, show_char_intervals),
{
    let mut result = String::new();
    push_str(&mut result, "📄 EXTRACTION VISUALIZATION\n");
    push_repeat(&mut result, '=', 50);
    push_str(&mut result, "\n");
    let text = str_or(&annotated_document.text, "No text");
    let len = byte_len(text);
    push_str(&mut result, "📝 Document Text (");
    push_decimal(&mut result, len);
    push_str(&mut result, " chars):\n");
    push_str(&mut result, "   ");
    push_str(&mut result, text);
    push_str(&mut result, "\n\n");
    let ghost part1 = result@;
    match &annotated_document.extractions {
        Some(extractions) => {
            push_str(&mut result, "🎯 Found ");
            push_decimal(&mut result, extractions.len());
            push_str(&mut result, " Extractions:\n");
            push_repeat(&mut result, '-', 30);
            push_str(&mut result, "\n");
            let ghost head = result@;
            let mut i: usize = 0;
            while i < extractions.len()
                invariant
                    i <= extractions@.len(),
                    result@ == head + text_entries(extractions@, show_char_intervals, i as int),
                decreases extractions@.len() - i,
            {
                push_text_entry(&mut result, i, &extractions[i], show_char_intervals);
                i = i + 1;
            }
        },
        None => {
            push_str(&mut result, "ℹ️  No extractions found\n");
        },
    }
    let ghost part2 = result@;
    push_str(&mut result, "📊 Statistics:\n");
    push_repeat(&mut result, '-', 15);
    push_str(&mut result, "\n");
    push_str(&mut result, "   Document ID: ");
    push_str(&mut result, str_or(&annotated_document.document_id, "None"));
    push_str(&mut result, "\n");
    push_str(&mut result, "   Text Length: ");
    push_decimal(&mut result, len);
    push_str(&mut result, " characters\n");
    push_str(&mut result, "   Total Extractions: ");
    push_decimal(&mut result, annotated_document.extraction_count());
    push_str(&mut result, "\n");
    let ghost part3 = result@;
    if let Some(extractions) = &annotated_document.extractions {
        push_str(&mut result, "   Extraction Classes:\n");
        push_class_lines(&mut result, extractions);
    }
    proof {
        let m = part2.subrange(part1.len() as int, part2.len() as int);
        let t = result@.subrange(part3.len() as int, result@.len() as int);
        assert(part2 =~= part1 + m);
        assert(result@ =~= part3 + t);
        assert(m =~= match annotated_document.extractions {
            Some(v) => "🎯 Found "@ + decimal(v@.len()) + " Extractions:\n"@ + repeat_char('-', 30) + "\n"@ + text_entries(
                v@,
                show_char_intervals,
                v@.len() as int,
            ),
            None => "ℹ️  No extractions found\n"@,
        });
        assert(t =~= match annotated_document.extractions {
            Some(v) => "   Extraction Classes:\n"@ + class_lines(class_pairs(v@), class_pairs(v@).len() as int),
            None => seq![],
        });
        assert(result@ =~= text_report(*annotated_document, show_char_intervals));
    }
    Ok(result)
}

/// The plain-text report of an annotated document, as [`visualize_text`]
/// writes it.
pub fn visualize(annotated_document: &AnnotatedDocument, show_char_intervals: bool) -> (r: LangExtractResult<String>)
    ensures
        r matches Ok(s) && s@ == text_report(*annotated_document, show_char_intervals),
{
    visualize_text(annotated_document, show_char_intervals)
}


// ---------------------------------------------------------------------------
// HTML export.

/// A fixed piece of the HTML export.
pub const HTML_HEAD: &'static str = "<!DOCTYPE html>\n<html lang=\"en\">\n<head>\n    <meta charset=\"UTF-8\">\n    <meta name=\"viewport\" content=\"width=device-width, initial-scale=1.0\">\n    <title>";

/// A fixed piece of the HTML export.
pub const HTML_HEAD_TO_CSS: &'static str = "</title>\n    <style>\n        body {\n            font-family: -apple-system, BlinkMacSystemFont, 'Segoe UI', Roboto, sans-serif;\n            max-width: 1200px;\n            margin: 0 auto;\n            padding: 20px;\n            background: #f8fafc;\n            color: #334155;\n        }\n        .container {\n            background: white;\n            border-radius: 12px;\n            box-shadow: 0 4px 6px -1px rgba(0, 0, 0, 0.1);\n            overflow: hidden;\n        }\n        .header {\n            background: linear-gradient(135deg, #667eea 0%, #764ba2 100%);\n            color: white;\n            padding: 30px;\n            text-align: center;\n        }\n        .header h1 {\n            margin: 0;\n            font-size: 2.5em;\n            font-weight: 300;\n        }\n        .content {\n            padding: 30px;\n        }\n        .section {\n            margin-bottom: 40px;\n        }\n        .section h2 {\n            color: #1e293b;\n            border-bottom: 2px solid #e2e8f0;\n            padding-bottom: 10px;\n            margin-bottom: 20px;\n        }\n        .document-text {\n            background: #f1f5f9;\n            border-radius: 8px;\n            padding: 20px;\n            font-family: 'Monaco', 'Menlo', monospace;\n            line-height: 1.6;\n            white-space: pre-wrap;\n            position: relative;\n            margin-bottom: 20px;\n        }\n        .extraction-highlight {\n            background: rgba(59, 130, 246, 0.2);\n            border: 1px solid rgba(59, 130, 246, 0.4);\n            border-radius: 3px;\n            padding: 1px 2px;\n            cursor: pointer;\n            transition: all 0.2s ease;\n        }\n        .extraction-highlight:hover {\n            background: rgba(59, 130, 246, 0.3);\n            transform: translateY(-1px);\n        }\n        .extractions-grid {\n            display: grid;\n            grid-template-columns: repeat(auto-fit, minmax(300px, 1fr));\n            gap: 20px;\n            margin-bottom: 30px;\n        }\n        .extraction-card {\n            background: #f8fafc;\n            border: 1px solid #e2e8f0;\n            border-radius: 8px;\n            padding: 15px;\n            transition: all 0.2s ease;\n        }\n        .extraction-card:hover {\n            border-color: #3b82f6;\n            box-shadow: 0 4px 12px rgba(59, 130, 246, 0.15);\n        }\n        .extraction-class {\n            background: #3b82f6;\n            color: white;\n            padding: 4px 8px;\n            border-radius: 4px;\n            font-size: 0.8em;\n            font-weight: 600;\n            display: inline-block;\n            margin-bottom: 8px;\n        }\n        .extraction-text {\n            font-weight: 600;\n            color: #1e293b;\n            margin-bottom: 8px;\n        }\n        .extraction-meta {\n            font-size: 0.9em;\n            color: #64748b;\n        }\n        .stats-grid {\n            display: grid;\n            grid-template-columns: repeat(auto-fit, minmax(200px, 1fr));\n            gap: 20px;\n        }\n        .stat-card {\n            background: linear-gradient(135deg, #667eea 0%, #764ba2 100%);\n            color: white;\n            padding: 20px;\n            border-radius: 8px;\n            text-align: center;\n        }\n        .stat-number {\n            font-size: 2em;\n            font-weight: bold;\n            margin-bottom: 5px;\n        }\n        .stat-label {\n            opacity: 0.9;\n            font-size: 0.9em;\n        }\n        .class-counts {\n            background: #f1f5f9;\n            border-radius: 8px;\n            padding: 20px;\n        }\n        .class-count-item {\n            display: flex;\n            justify-content: space-between;\n            align-items: center;\n            padding: 8px 0;\n            border-bottom: 1px solid #e2e8f0;\n        }\n        .class-count-item:last-child {\n            border-bottom: none;\n        }\n        .class-badge {\n            background: #10b981;\n            color: white;\n            padding: 2px 6px;\n            border-radius: 12px;\n            font-size: 0.8em;\n            font-weight: 600;\n        }\n        ";

/// A fixed piece of the HTML export.
pub const HTML_AFTER_CSS: &'static str = "\n    </style>\n</head>\n<body>\n";

/// A fixed piece of the HTML export.
pub const HTML_CONTAINER_OPEN: &'static str = "    <div class=\"container\">\n        <div class=\"header\">\n            <h1>";

/// A fixed piece of the HTML export.
pub const HTML_CONTENT_OPEN: &'static str = "</h1>\n        </div>\n        <div class=\"content\">\n";

/// A fixed piece of the HTML export.
pub const HTML_TEXT_OPEN: &'static str = "            <div class=\"section\">\n                <h2>📄 Document Text</h2>\n                <div class=\"document-text\">";

/// A fixed piece of the HTML export.
pub const HTML_TEXT_CLOSE: &'static str = "</div>\n            </div>\n";

/// A fixed piece of the HTML export.
pub const HTML_EXTRACTIONS_OPEN: &'static str = "            <div class=\"section\">\n                <h2>🎯 Extractions (";

/// A fixed piece of the HTML export.
pub const HTML_EXTRACTIONS_GRID: &'static str = " found)</h2>\n                <div class=\"extractions-grid\">\n";

/// A fixed piece of the HTML export.
pub const HTML_CARD_CLASS: &'static str = "                    <div class=\"extraction-card\">\n                        <div class=\"extraction-class\">";

/// A fixed piece of the HTML export.
pub const HTML_CARD_TEXT: &'static str = "</div>\n                        <div class=\"extraction-text\">";

/// A fixed piece of the HTML export.
pub const HTML_META_CLOSE: &'static str = "</div>\n";

/// A fixed piece of the HTML export.
pub const HTML_POSITION_OPEN: &'static str = "                        <div class=\"extraction-meta\">Position: ";

/// A fixed piece of the HTML export.
pub const HTML_DESCRIPTION_OPEN: &'static str = "                        <div class=\"extraction-meta\">Description: ";

/// A fixed piece of the HTML export.
pub const HTML_CARD_CLOSE: &'static str = "                    </div>\n";

/// A fixed piece of the HTML export.
pub const HTML_GRID_CLOSE: &'static str = "                </div>\n            </div>\n";

/// A fixed piece of the HTML export.
pub const HTML_STATS_OPEN: &'static str = "            <div class=\"section\">\n                <h2>📊 Statistics</h2>\n                <div class=\"stats-grid\">\n";

/// A fixed piece of the HTML export.
pub const HTML_STAT_OPEN: &'static str = "                    <div class=\"stat-card\">\n                        <div class=\"stat-number\">";

/// A fixed piece of the HTML export.
pub const HTML_STAT_TOTAL: &'static str = "</div>\n                        <div class=\"stat-label\">Total Extractions</div>\n                    </div>\n                    <div class=\"stat-card\">\n                        <div class=\"stat-number\">";

/// A fixed piece of the HTML export.
pub const HTML_STAT_CHARS: &'static str = "</div>\n                        <div class=\"stat-label\">Characters</div>\n                    </div>\n";

/// A fixed piece of the HTML export.
pub const HTML_STAT_UNIQUE: &'static str = "</div>\n                        <div class=\"stat-label\">Unique Classes</div>\n                    </div>\n";

/// A fixed piece of the HTML export.
pub const HTML_DIV_CLOSE: &'static str = "                </div>\n";

/// A fixed piece of the HTML export.
pub const HTML_CLASSES_OPEN: &'static str = "                <h3>Extraction Classes</h3>\n                <div class=\"class-counts\">\n";

/// A fixed piece of the HTML export.
pub const HTML_CLASS_ITEM_OPEN: &'static str = "                    <div class=\"class-count-item\">\n                        <span>";

/// A fixed piece of the HTML export.
pub const HTML_CLASS_BADGE: &'static str = "</span>\n                        <span class=\"class-badge\">";

/// A fixed piece of the HTML export.
pub const HTML_CLASS_ITEM_CLOSE: &'static str = "</span>\n                    </div>\n";

/// A fixed piece of the HTML export.
pub const HTML_SECTION_CLOSE: &'static str = "            </div>\n";

/// A fixed piece of the HTML export.
pub const HTML_TAIL: &'static str = "        </div>\n    </div>\n    \n    <script>\n        // Add interactivity for extraction highlights\n        document.querySelectorAll('.extraction-highlight').forEach(element => {\n            element.addEventListener('click', function() {\n                const className = this.getAttribute('data-class');\n                const text = this.getAttribute('data-text');\n                alert(`Extraction: ${className}\\nText: ${text}`);\n            });\n        });\n    </script>\n</body>\n</html>";

/// The position line of a card, when shown.
pub open spec fn html_position_part(e: Extraction, show: bool) -> Seq<char> {
    match e.char_interval {
        Some(ci) => if show {
            HTML_POSITION_OPEN@ + decimal(ci.start_pos.unwrap_or(0) as nat) + "-"@ + decimal(ci.end_pos.unwrap_or(0) as nat)
                + HTML_META_CLOSE@
        } else {
            seq![]
        },
        None => seq![],
    }
}

/// The description line of a card, when the extraction has one.
pub open spec fn html_description_part(e: Extraction) -> Seq<char> {
    match e.description {
        Some(d) => HTML_DESCRIPTION_OPEN@ + html_escaped(d@) + HTML_META_CLOSE@,
        None => seq![],
    }
}

/// The card of an extraction in the HTML export.
pub open spec fn html_card(e: Extraction, show: bool) -> Seq<char> {
    HTML_CARD_CLASS@ + html_escaped(e.extraction_class@) + HTML_CARD_TEXT@ + html_escaped(e.extraction_text@) + HTML_META_CLOSE@
        + html_position_part(e, show) + html_description_part(e) + HTML_CARD_CLOSE@
}

/// The cards of the first `n` extractions.
pub open spec fn html_cards(es: Seq<Extraction>, show: bool, n: int) -> Seq<char>
    decreases n,
{
    if n <= 0 || n > es.len() {
        seq![]
    } else {
        html_cards(es, show, n - 1) + html_card(es[n - 1], show)
    }
}

/// The class items of the first `n` classes in the HTML export.
pub open spec fn html_class_items(pairs: Seq<(Seq<char>, nat)>, n: int) -> Seq<char>
    decreases n,
{
    if n <= 0 || n > pairs.len() {
        seq![]
    } else {
        html_class_items(pairs, n - 1) + HTML_CLASS_ITEM_OPEN@ + html_escaped(pairs[n - 1].0) + HTML_CLASS_BADGE@ + decimal(
            pairs[n - 1].1,
        ) + HTML_CLASS_ITEM_CLOSE@
    }
}

/// The document text section of the HTML export.
pub open spec fn html_text_section(doc: AnnotatedDocument, config: ExportConfig) -> Seq<char> {
    let text = text_or(doc.text, "No text"@);
    if config.include_text {
        HTML_TEXT_OPEN@ + (if config.highlight_extractions {
            highlighted_html(text, doc.extractions)
        } else {
            html_escaped(text)
        }) + HTML_TEXT_CLOSE@
    } else {
        seq![]
    }
}

/// The extractions section of the HTML export.
pub open spec fn html_extractions_section(doc: AnnotatedDocument, config: ExportConfig) -> Seq<char> {
    match doc.extractions {
        Some(v) => HTML_EXTRACTIONS_OPEN@ + decimal(v@.len()) + HTML_EXTRACTIONS_GRID@ + html_cards(
            v@,
            config.show_char_intervals,
            v@.len() as int,
        ) + HTML_GRID_CLOSE@,
        None => seq![],
    }
}

/// The statistics section of the HTML export.
pub open spec fn html_stats_section(doc: AnnotatedDocument, config: ExportConfig) -> Seq<char> {
    let text = text_or(doc.text, "No text"@);
    if config.include_statistics {
        HTML_STATS_OPEN@ + HTML_STAT_OPEN@ + decimal(crate::data::spec_extraction_count(doc)) + HTML_STAT_TOTAL@ + decimal(
            encode_utf8(text).len(),
        ) + HTML_STAT_CHARS@ + (match doc.extractions {
            Some(v) => HTML_STAT_OPEN@ + decimal(class_pairs(v@).len()) + HTML_STAT_UNIQUE@ + HTML_DIV_CLOSE@
                + HTML_CLASSES_OPEN@ + html_class_items(class_pairs(v@), class_pairs(v@).len() as int) + HTML_DIV_CLOSE@,
            None => HTML_DIV_CLOSE@,
        }) + HTML_SECTION_CLOSE@
    } else {
        seq![]
    }
}

/// The HTML export of an annotated document: a page with its title, the
/// text (highlighted as [`highlighted_html`] says, when asked), a card per
/// extraction and statistics, classes in the order they first occur.
pub open spec fn html_page(doc: AnnotatedDocument, config: ExportConfig) -> Seq<char> {
    let title = text_or(config.title, "LangExtract Results"@);
    HTML_HEAD@ + title + HTML_HEAD_TO_CSS@ + text_or(config.custom_css, seq![]) + HTML_AFTER_CSS@ + HTML_CONTAINER_OPEN@
        + title + HTML_CONTENT_OPEN@ + html_text_section(doc, config) + html_extractions_section(doc, config)
        + html_stats_section(doc, config) + HTML_TAIL@
}

fn push_html_position(out: &mut String, e: &Extraction, show: bool)
    ensures
        final(out)@ == old(out)@ + html_position_part(*e, show),
{
    if show {
        if let Some(interval) = &e.char_interval {
            push_str(out, HTML_POSITION_OPEN);
            push_decimal(out, interval.start_pos.unwrap_or(0));
            push_str(out, "-");
            push_decimal(out, interval.end_pos.unwrap_or(0));
            push_str(out, HTML_META_CLOSE);
            proof {
                assert(final(out)@ =~= old(out)@ + html_position_part(*e, show));
            }
            return;
        }
    }
    proof {
        assert(out@ =~= old(out)@ + html_position_part(*e, show));
    }
}

fn push_html_description(out: &mut String, e: &Extraction)
    ensures
        final(out)@ == old(out)@ + html_description_part(*e),
{
    if let Some(description) = &e.description {
        push_str(out, HTML_DESCRIPTION_OPEN);
        let d = html_escape(description.as_str());
        push_str(out, d.as_str());
        push_str(out, HTML_META_CLOSE);
        proof {
            assert(final(out)@ =~= old(out)@ + html_description_part(*e));
        }
    } else {
        proof {
            assert(out@ =~= old(out)@ + html_description_part(*e));
        }
    }
}

fn push_html_card(out: &mut String, e: &Extraction, show: bool)
    ensures
        final(out)@ == old(out)@ + html_card(*e, show),
{
    push_str(out, HTML_CARD_CLASS);
    let c = html_escape(e.extraction_class.as_str());
    push_str(out, c.as_str());
    push_str(out, HTML_CARD_TEXT);
    let t = html_escape(e.extraction_text.as_str());
    push_str(out, t.as_str());
    push_str(out, HTML_META_CLOSE);
    push_html_position(out, e, show);
    push_html_description(out, e);
    push_str(out, HTML_CARD_CLOSE);
    proof {
        assert(final(out)@ =~= old(out)@ + html_card(*e, show));
    }
}

fn push_html_text_section(out: &mut String, doc: &AnnotatedDocument, config: &ExportConfig)
    ensures
        final(out)@ == old(out)@ + html_text_section(*doc, *config),
{
    if config.include_text {
        push_str(out, HTML_TEXT_OPEN);
        let text = str_or(&doc.text, "No text");
        if config.highlight_extractions {
            let _n = match &doc.extractions {
                Some(v) => v.len(),
                None => 0,
            };
            match highlight_text_html(text, doc) {
                Ok(h) => push_str(out, h.as_str()),
                Err(_) => {},
            }
        } else {
            let h = html_escape(text);
            push_str(out, h.as_str());
        }
        push_str(out, HTML_TEXT_CLOSE);
    }
    proof {
        assert(final(out)@ =~= old(out)@ + html_text_section(*doc, *config));
    }
}

fn push_html_extractions_section(out: &mut String, doc: &AnnotatedDocument, config: &ExportConfig)
    ensures
        final(out)@ == old(out)@ + html_extractions_section(*doc, *config),
{
    if let Some(extractions) = &doc.extractions {
        push_str(out, HTML_EXTRACTIONS_OPEN);
        push_decimal(out, extractions.len());
        push_str(out, HTML_EXTRACTIONS_GRID);
        let ghost head = out@;
        let mut i: usize = 0;
        while i < extractions.len()
            invariant
                i <= extractions@.len(),
                out@ == head + html_cards(extractions@, config.show_char_intervals, i as int),
            decreases extractions@.len() - i,
        {
            push_html_card(out, &extractions[i], config.show_char_intervals);
            i = i + 1;
        }
        push_str(out, HTML_GRID_CLOSE);
    }
    proof {
        assert(final(out)@ =~= old(out)@ + html_extractions_section(*doc, *config));
    }
}

fn push_html_class_items(out: &mut String, extractions: &Vec<Extraction>)
    ensures
        final(out)@ == old(out)@ + html_class_items(class_pairs(extractions@), class_pairs(extractions@).len() as int),
{
    let _n = extractions.len();
    let counts = count_extraction_classes(extractions.as_slice());
    let ghost pairs = class_pairs(extractions@);
    let mut k: usize = 0;
    while k < counts.len()
        invariant
            k <= counts@.len(),
            pairs == class_pairs(extractions@),
            counts@.len() == pairs.len(),
            forall|q: int| 0 <= q < counts@.len() ==> (#[trigger] counts@[q]).0@ == pairs[q].0 && counts@[q].1 == pairs[q].1,
            out@ == old(out)@ + html_class_items(pairs, k as int),
        decreases counts@.len() - k,
    {
        push_str(out, HTML_CLASS_ITEM_OPEN);
        let c = html_escape(counts[k].0.as_str());
        push_str(out, c.as_str());
        push_str(out, HTML_CLASS_BADGE);
        push_decimal(out, counts[k].1);
        push_str(out, HTML_CLASS_ITEM_CLOSE);
        k = k + 1;
    }
}

/// The number of distinct classes among the extractions.
fn class_total(extractions: &Vec<Extraction>) -> (n: usize)
    ensures
        n == class_pairs(extractions@).len(),
{
    let _n = extractions.len();
    let counts = count_extraction_classes(extractions.as_slice());
    counts.len()
}

fn push_html_stats_section(out: &mut String, doc: &AnnotatedDocument, config: &ExportConfig)
    ensures
        final(out)@ == old(out)@ + html_stats_section(*doc, *config),
{
    if config.include_statistics {
        push_str(out, HTML_STATS_OPEN);
        push_str(out, HTML_STAT_OPEN);
        push_decimal(out, doc.extraction_count());
        push_str(out, HTML_STAT_TOTAL);
        let text = str_or(&doc.text, "No text");
        push_decimal(out, byte_len(text));
        push_str(out, HTML_STAT_CHARS);
        let ghost mid = out@;
        if let Some(extractions) = &doc.extractions {
            push_str(out, HTML_STAT_OPEN);
            push_decimal(out, class_total(extractions));
            push_str(out, HTML_STAT_UNIQUE);
            push_str(out, HTML_DIV_CLOSE);
            push_str(out, HTML_CLASSES_OPEN);
            push_html_class_items(out, extractions);
            push_str(out, HTML_DIV_CLOSE);
        } else {
            push_str(out, HTML_DIV_CLOSE);
        }
        let ghost tail = out@.subrange(mid.len() as int, out@.len() as int);
        proof {
            assert(out@ =~= mid + tail);
        }
        push_str(out, HTML_SECTION_CLOSE);
    }
    proof {
        assert(final(out)@ =~= old(out)@ + html_stats_section(*doc, *config));
    }
}

/// The HTML export of an annotated document; see [`html_page`].
pub fn export_html(annotated_document: &AnnotatedDocument, config: &ExportConfig) -> (r: LangExtractResult<String>)
    ensures
        r matches Ok(s) && s@ == html_page(*annotated_document, *config),
{
    let title = str_or(&config.title, "LangExtract Results");
    let mut html = String::new();
    push_str(&mut html, HTML_HEAD);
    push_str(&mut html, title);
    push_str(&mut html, HTML_HEAD_TO_CSS);
    let css = str_or(&config.custom_css, "");
    push_str(&mut html, css);
    push_str(&mut html, HTML_AFTER_CSS);
    push_str(&mut html, HTML_CONTAINER_OPEN);
    push_str(&mut html, title);
    push_str(&mut html, HTML_CONTENT_OPEN);
    push_html_text_section(&mut html, annotated_document, config);
    push_html_extractions_section(&mut html, annotated_document, config);
    push_html_stats_section(&mut html, annotated_document, config);
    push_str(&mut html, HTML_TAIL);
    proof {
        reveal_strlit("");
        assert(""@ =~= Seq::<char>::empty());
        assert(html@ =~= html_page(*annotated_document, *config));
    }
    Ok(html)
}


// ---------------------------------------------------------------------------
// Markdown export.

/// The entries that order extractions by start, an unknown start last.
pub open spec fn start_entries(es: Seq<Extraction>, n: int) -> Seq<Keyed>
    decreases n,
{
    if n <= 0 || n > es.len() {
        seq![]
    } else {
        let key = match es[n - 1].char_interval {
            Some(ci) => ci.start_pos.unwrap_or(usize::MAX),
            None => usize::MAX,
        };
        start_entries(es, n - 1).push((key, 0usize, 0usize, (n - 1) as usize))
    }
}

/// The extractions in order of start, an unknown start last; extractions
/// with equal starts keep their order.
pub open spec fn by_start(es: Seq<Extraction>) -> Seq<Extraction> {
    sorted_keyed(start_entries(es, es.len() as int)).map_values(|k: Keyed| es[k.3 as int])
}

/// The text of the bytes from `a` to `z`, when both are character
/// boundaries; `None` where taking that slice fails.
pub open spec fn md_slice(b: Seq<u8>, a: int, z: int) -> Option<Seq<char>> {
    if is_char_boundary(b, a) && is_char_boundary(b, z) { Some(text_between(b, a, z)) } else { None }
}

/// The Markdown of the text from `last_pos` on with the extractions from
/// the `i`th on in bold: before each positioned extraction the text since
/// the last one when its start lies ahead, then the extraction's own
/// stretch when it is non-empty and within the text; at the end the rest.
/// `None` where a slice would not fall on character boundaries.
pub open spec fn md_render(b: Seq<u8>, es: Seq<Extraction>, i: int, last_pos: int) -> Option<Seq<char>>
    decreases es.len() - i,
{
    if i < 0 || i >= es.len() {
        if last_pos < b.len() { md_slice(b, last_pos, b.len() as int) } else { Some(seq![]) }
    } else {
        match (md_piece(b, es[i], last_pos), md_render(b, es, i + 1, md_next(b, es[i], last_pos))) {
            (Some(p), Some(r)) => Some(p + r),
            _ => None,
        }
    }
}

/// What one extraction adds to the Markdown: the text since the last bold
/// stretch when its start lies ahead, then its own stretch in bold when it
/// is non-empty and within the text; nothing without a position.
pub open spec fn md_piece(b: Seq<u8>, e: Extraction, last_pos: int) -> Option<Seq<char>> {
    match e.char_interval {
        None => Some(seq![]),
        Some(ci) => {
            let st = ci.start_pos.unwrap_or(0) as int;
            let en = ci.end_pos.unwrap_or(0) as int;
            let gap = if st > last_pos && st <= b.len() { md_slice(b, last_pos, st) } else { Some(seq![]) };
            let bold = if en <= b.len() && st < en {
                match md_slice(b, st, en) {
                    Some(t) => Some("**"@ + t + "**"@),
                    None => None,
                }
            } else {
                Some(seq![])
            };
            match (gap, bold) {
                (Some(g), Some(h)) => Some(g + h),
                _ => None,
            }
        },
    }
}

/// Where the Markdown continues after an extraction.
pub open spec fn md_next(b: Seq<u8>, e: Extraction, last_pos: int) -> int {
    match e.char_interval {
        None => last_pos,
        Some(ci) => {
            let st = ci.start_pos.unwrap_or(0) as int;
            let en = ci.end_pos.unwrap_or(0) as int;
            if en <= b.len() && st < en { en } else { last_pos }
        },
    }
}

fn md_step(result: &mut String, text: &str, e: &Extraction, last_pos: usize) -> (next: usize)
    requires
        last_pos <= bytes(text).len(),
        md_piece(bytes(text), *e, last_pos as int) is Some,
    ensures
        final(result)@ == old(result)@ + md_piece(bytes(text), *e, last_pos as int)->0,
        next == md_next(bytes(text), *e, last_pos as int),
        next <= bytes(text).len(),
{
    let n = byte_len(text);
    let mut next = last_pos;
    if let Some(interval) = &e.char_interval {
        let st = interval.start_pos.unwrap_or(0);
        let en = interval.end_pos.unwrap_or(0);
        if st > last_pos && st <= n {
            let piece = slice_text(text, last_pos, st);
            push_str(result, piece);
        }
        if en <= n && st < en {
            let piece = slice_text(text, st, en);
            push_str(result, "**");
            push_str(result, piece);
            push_str(result, "**");
            next = en;
        }
    }
    proof {
        assert(final(result)@ =~= old(result)@ + md_piece(bytes(text), *e, last_pos as int)->0);
    }
    next
}

/// The text in a Markdown code block with the extractions in bold; see
/// [`md_render`]. Without extractions, the plain text in a code block.
pub open spec fn markdown_highlight(text: Seq<char>, extractions: Option<Vec<Extraction>>) -> Option<Seq<char>> {
    match extractions {
        Some(v) => match md_render(encode_utf8(text), by_start(v@), 0, 0) {
            Some(body) => Some("```\n"@ + body + "\n```\n"@),
            None => None,
        },
        None => Some("```\n"@ + text + "\n```\n"@),
    }
}

proof fn lemma_start_entries(es: Seq<Extraction>, n: int)
    requires
        0 <= n <= es.len(),
    ensures
        forall|k: int| 0 <= k < start_entries(es, n).len() ==> (#[trigger] start_entries(es, n)[k]).3 < n,
    decreases n,
{
    if n > 0 {
        lemma_start_entries(es, n - 1);
        let p = start_entries(es, n - 1);
        assert forall|k: int| 0 <= k < start_entries(es, n).len() implies (#[trigger] start_entries(es, n)[k]).3 < n by {
            if k < p.len() {
                assert(start_entries(es, n)[k] == p[k]);
            }
        }
    }
}

fn slice_text(text: &str, a: usize, z: usize) -> (r: &str)
    requires
        a <= z <= bytes(text).len(),
        is_char_boundary(bytes(text), a as int),
        is_char_boundary(bytes(text), z as int),
    ensures
        r@ == text_between(bytes(text), a as int, z as int),
{
    let piece = substr(text, a, z);
    proof {
        crate::text::lemma_chars_of(piece);
    }
    piece
}

/// Bolds the extractions of a document within its text, in a Markdown
/// code block; see [`markdown_highlight`]. Every slice it takes must fall
/// on character boundaries.
pub fn highlight_text_markdown(text: &str, annotated_document: &AnnotatedDocument) -> (r: LangExtractResult<String>)
    requires
        markdown_highlight(text@, annotated_document.extractions) is Some,
    ensures
        r matches Ok(s) && Some(s@) == markdown_highlight(text@, annotated_document.extractions),
{
    match &annotated_document.extractions {
        Some(extractions) => {
            let ghost b = bytes(text);
            let n = byte_len(text);
            proof {
                lemma_str_valid(text);
                is_char_boundary_start_end_of_seq(b);
            }
            let mut entries: Vec<Keyed> = Vec::new();
            let mut i: usize = 0;
            while i < extractions.len()
                invariant
                    i <= extractions@.len(),
                    entries@ == start_entries(extractions@, i as int),
                decreases extractions@.len() - i,
            {
                let key = match &extractions[i].char_interval {
                    Some(ci) => ci.start_pos.unwrap_or(usize::MAX),
                    None => usize::MAX,
                };
                entries.push((key, 0, 0, i));
                i = i + 1;
            }
            proof {
                lemma_start_entries(extractions@, extractions@.len() as int);
                crate::layers::lemma_sorted_keyed(entries@);
                assert forall|k: int| 0 <= k < sorted_keyed(entries@).len() implies (#[trigger] sorted_keyed(entries@)[k]).3 < extractions@.len() by {
                    assert(entries@.contains(sorted_keyed(entries@)[k]));
                    let w = choose|w: int| 0 <= w < entries@.len() && entries@[w] == sorted_keyed(entries@)[k];
                    assert(entries@[w].3 < extractions@.len());
                }
            }
            let order = sort_keyed(&entries);
            let ghost es = by_start(extractions@);
            proof {
                assert(es.len() == order@.len());
            }
            let mut result = String::new();
            push_str(&mut result, "```\n");
            let ghost head = result@;
            let ghost done: Seq<char> = seq![];
            let mut last_pos: usize = 0;
            let mut j: usize = 0;
            while j < order.len()
                invariant
                    b == bytes(text),
                    n == b.len(),
                    j <= order@.len(),
                    entries@ == start_entries(extractions@, extractions@.len() as int),
                    order@ == sorted_keyed(entries@),
                    es == by_start(extractions@),
                    es.len() == order@.len(),
                    forall|k: int| 0 <= k < order@.len() ==> (#[trigger] order@[k]).3 < extractions@.len(),
                    last_pos <= n,
                    result@ == head + done,
                    md_render(b, es, j as int, last_pos as int) is Some,
                    md_render(b, es, 0, 0) == Some(done + md_render(b, es, j as int, last_pos as int)->0),
                decreases order@.len() - j,
            {
                let e = &extractions[order[j].3];
                proof {
                    assert(es[j as int] == extractions@[order@[j as int].3 as int]);
                }
                let ghost before = result@;
                let ghost piece = md_piece(b, *e, last_pos as int)->0;
                last_pos = md_step(&mut result, text, e, last_pos);
                proof {
                    done = done + piece;
                    assert(result@ =~= head + done);
                }
                j = j + 1;
            }
            if last_pos < n {
                let piece = slice_text(text, last_pos, n);
                push_str(&mut result, piece);
            }
            push_str(&mut result, "\n```\n");
            proof {
                assert(result@ =~= "```\n"@ + md_render(b, es, 0, 0)->0 + "\n```\n"@);
            }
            Ok(result)
        },
        None => {
            let mut result = String::new();
            push_str(&mut result, "```\n");
            push_str(&mut result, text);
            push_str(&mut result, "\n```\n");
            Ok(result)
        },
    }
}


/// The position line of a Markdown entry, when shown.
pub open spec fn md_position(e: Extraction, show: bool) -> Seq<char> {
    match e.char_interval {
        Some(ci) => if show {
            "**Position:** "@ + decimal(ci.start_pos.unwrap_or(0) as nat) + "-"@ + decimal(ci.end_pos.unwrap_or(0) as nat) + "\n\n"@
        } else {
            seq![]
        },
        None => seq![],
    }
}

/// The description line of a Markdown entry, when there is one.
pub open spec fn md_description(e: Extraction) -> Seq<char> {
    match e.description {
        Some(d) => "**Description:** "@ + d@ + "\n\n"@,
        None => seq![],
    }
}

/// The Markdown entry of the `i`th extraction (from 0).
pub open spec fn md_entry(i: nat, e: Extraction, show: bool) -> Seq<char> {
    "### "@ + decimal(i + 1) + ". "@ + e.extraction_class@ + "\n\n"@ + "**Text:** "@ + e.extraction_text@ + "\n\n"@
        + md_position(e, show) + md_description(e)
}

/// The Markdown entries of the first `n` extractions.
pub open spec fn md_entries(es: Seq<Extraction>, show: bool, n: int) -> Seq<char>
    decreases n,
{
    if n <= 0 || n > es.len() {
        seq![]
    } else {
        md_entries(es, show, n - 1) + md_entry((n - 1) as nat, es[n - 1], show)
    }
}

/// The rows of the Markdown class table for the first `n` classes.
pub open spec fn md_class_rows(pairs: Seq<(Seq<char>, nat)>, n: int) -> Seq<char>
    decreases n,
{
    if n <= 0 || n > pairs.len() {
        seq![]
    } else {
        md_class_rows(pairs, n - 1) + "| "@ + pairs[n - 1].0 + " | "@ + decimal(pairs[n - 1].1) + " |\n"@
    }
}

/// The Markdown export can be written: when the text is highlighted, every
/// slice that takes falls on character boundaries.
pub open spec fn markdown_exportable(doc: AnnotatedDocument, config: ExportConfig) -> bool {
    config.include_text && config.highlight_extractions ==> markdown_highlight(text_or(doc.text, "No text"@), doc.extractions)
        is Some
}

/// The text section of the Markdown export.
pub open spec fn md_text_section(doc: AnnotatedDocument, config: ExportConfig) -> Seq<char> {
    let text = text_or(doc.text, "No text"@);
    if config.include_text {
        "## 📄 Document Text\n\n"@ + (if config.highlight_extractions {
            markdown_highlight(text, doc.extractions)->0
        } else {
            "```\n"@ + text + "\n```\n"@
        }) + "\n"@
    } else {
        seq![]
    }
}

/// The extractions section of the Markdown export.
pub open spec fn md_extractions_section(doc: AnnotatedDocument, config: ExportConfig) -> Seq<char> {
    match doc.extractions {
        Some(v) => "## 🎯 Extractions ("@ + decimal(v@.len()) + " found)\n\n"@ + md_entries(
            v@,
            config.show_char_intervals,
            v@.len() as int,
        ),
        None => seq![],
    }
}

/// The statistics section of the Markdown export.
pub open spec fn md_stats_section(doc: AnnotatedDocument, config: ExportConfig) -> Seq<char> {
    let text = text_or(doc.text, "No text"@);
    if config.include_statistics {
        "## 📊 Statistics\n\n"@ + "- **Total Extractions:** "@ + decimal(crate::data::spec_extraction_count(doc)) + "\n"@
            + "- **Text Length:** "@ + decimal(encode_utf8(text).len()) + " characters\n"@ + (match doc.extractions {
            Some(v) => "- **Unique Classes:** "@ + decimal(class_pairs(v@).len()) + "\n\n"@ + "### Extraction Classes\n\n"@
                + "| Class | Count |\n"@ + "|-------|-------|\n"@ + md_class_rows(class_pairs(v@), class_pairs(v@).len() as int),
            None => seq![],
        }) + "\n"@
    } else {
        seq![]
    }
}

/// The Markdown export of an annotated document: title, text (highlighted
/// as [`markdown_highlight`] says, when asked), extractions and statistics.
pub open spec fn markdown_page(doc: AnnotatedDocument, config: ExportConfig) -> Seq<char> {
    "# "@ + text_or(config.title, "LangExtract Results"@) + "\n\n"@ + md_text_section(doc, config) + md_extractions_section(doc, config)
        + md_stats_section(doc, config)
}

fn push_md_position(out: &mut String, e: &Extraction, show: bool)
    ensures
        final(out)@ == old(out)@ + md_position(*e, show),
{
    if show {
        if let Some(interval) = &e.char_interval {
            push_str(out, "**Position:** ");
            push_decimal(out, interval.start_pos.unwrap_or(0));
            push_str(out, "-");
            push_decimal(out, interval.end_pos.unwrap_or(0));
            push_str(out, "\n\n");
            proof {
                assert(final(out)@ =~= old(out)@ + md_position(*e, show));
            }
            return;
        }
    }
    proof {
        assert(out@ =~= old(out)@ + md_position(*e, show));
    }
}

fn push_md_entry(out: &mut String, i: usize, e: &Extraction, show: bool)
    requires
        i < usize::MAX,
    ensures
        final(out)@ == old(out)@ + md_entry(i as nat, *e, show),
{
    push_str(out, "### ");
    push_decimal(out, i + 1);
    push_str(out, ". ");
    push_str(out, e.extraction_class.as_str());
    push_str(out, "\n\n");
    push_str(out, "**Text:** ");
    push_str(out, e.extraction_text.as_str());
    push_str(out, "\n\n");
    push_md_position(out, e, show);
    push_md_description(out, e);
    proof {
        assert(final(out)@ =~= old(out)@ + md_entry(i as nat, *e, show));
    }
}

fn push_md_description(out: &mut String, e: &Extraction)
    ensures
        final(out)@ == old(out)@ + md_description(*e),
{
    if let Some(description) = &e.description {
        push_str(out, "**Description:** ");
        push_str(out, description.as_str());
        push_str(out, "\n\n");
        proof {
            assert(final(out)@ =~= old(out)@ + md_description(*e));
        }
    } else {
        proof {
            assert(out@ =~= old(out)@ + md_description(*e));
        }
    }
}

fn push_md_text_section(out: &mut String, doc: &AnnotatedDocument, config: &ExportConfig)
    requires
        markdown_exportable(*doc, *config),
    ensures
        final(out)@ == old(out)@ + md_text_section(*doc, *config),
{
    if config.include_text {
        push_str(out, "## 📄 Document Text\n\n");
        let text = str_or(&doc.text, "No text");
        if config.highlight_extractions {
            match highlight_text_markdown(text, doc) {
                Ok(h) => push_str(out, h.as_str()),
                Err(_) => {},
            }
        } else {
            push_str(out, "```\n");
            push_str(out, text);
            push_str(out, "\n```\n");
        }
        push_str(out, "\n");
    }
    proof {
        assert(final(out)@ =~= old(out)@ + md_text_section(*doc, *config));
    }
}

fn push_md_extractions_section(out: &mut String, doc: &AnnotatedDocument, config: &ExportConfig)
    ensures
        final(out)@ == old(out)@ + md_extractions_section(*doc, *config),
{
    if let Some(extractions) = &doc.extractions {
        push_str(out, "## 🎯 Extractions (");
        push_decimal(out, extractions.len());
        push_str(out, " found)\n\n");
        let ghost head = out@;
        let mut i: usize = 0;
        while i < extractions.len()
            invariant
                i <= extractions@.len(),
                out@ == head + md_entries(extractions@, config.show_char_intervals, i as int),
            decreases extractions@.len() - i,
        {
            push_md_entry(out, i, &extractions[i], config.show_char_intervals);
            i = i + 1;
        }
    }
    proof {
        assert(final(out)@ =~= old(out)@ + md_extractions_section(*doc, *config));
    }
}

fn push_md_class_rows(out: &mut String, extractions: &Vec<Extraction>)
    ensures
        final(out)@ == old(out)@ + md_class_rows(class_pairs(extractions@), class_pairs(extractions@).len() as int),
{
    let _n = extractions.len();
    let counts = count_extraction_classes(extractions.as_slice());
    let ghost pairs = class_pairs(extractions@);
    let mut k: usize = 0;
    while k < counts.len()
        invariant
            k <= counts@.len(),
            pairs == class_pairs(extractions@),
            counts@.len() == pairs.len(),
            forall|q: int| 0 <= q < counts@.len() ==> (#[trigger] counts@[q]).0@ == pairs[q].0 && counts@[q].1 == pairs[q].1,
            out@ == old(out)@ + md_class_rows(pairs, k as int),
        decreases counts@.len() - k,
    {
        push_str(out, "| ");
        push_str(out, counts[k].0.as_str());
        push_str(out, " | ");
        push_decimal(out, counts[k].1);
        push_str(out, " |\n");
        k = k + 1;
    }
}

fn push_md_stats_section(out: &mut String, doc: &AnnotatedDocument, config: &ExportConfig)
    ensures
        final(out)@ == old(out)@ + md_stats_section(*doc, *config),
{
    if config.include_statistics {
        push_str(out, "## 📊 Statistics\n\n");
        push_str(out, "- **Total Extractions:** ");
        push_decimal(out, doc.extraction_count());
        push_str(out, "\n");
        push_str(out, "- **Text Length:** ");
        let text = str_or(&doc.text, "No text");
        push_decimal(out, byte_len(text));
        push_str(out, " characters\n");
        let ghost mid = out@;
        if let Some(extractions) = &doc.extractions {
            push_str(out, "- **Unique Classes:** ");
            push_decimal(out, class_total(extractions));
            push_str(out, "\n\n");
            push_str(out, "### Extraction Classes\n\n");
            push_str(out, "| Class | Count |\n");
            push_str(out, "|-------|-------|\n");
            push_md_class_rows(out, extractions);
        }
        let ghost tail = out@.subrange(mid.len() as int, out@.len() as int);
        proof {
            assert(out@ =~= mid + tail);
        }
        push_str(out, "\n");
    }
    proof {
        assert(final(out)@ =~= old(out)@ + md_stats_section(*doc, *config));
    }
}

/// The Markdown export of an annotated document; see [`markdown_page`].
pub fn export_markdown(annotated_document: &AnnotatedDocument, config: &ExportConfig) -> (r: LangExtractResult<String>)
    requires
        markdown_exportable(*annotated_document, *config),
    ensures
        r matches Ok(s) && s@ == markdown_page(*annotated_document, *config),
{
    let mut md = String::new();
    push_str(&mut md, "# ");
    push_str(&mut md, str_or(&config.title, "LangExtract Results"));
    push_str(&mut md, "\n\n");
    push_md_text_section(&mut md, annotated_document, config);
    push_md_extractions_section(&mut md, annotated_document, config);
    push_md_stats_section(&mut md, annotated_document, config);
    proof {
        assert(md@ =~= markdown_page(*annotated_document, *config));
    }
    Ok(md)
}


// ---------------------------------------------------------------------------
// JSON export.

/// The text of an optional string, as an optional text.
pub open spec fn opt_view(o: Option<String>) -> Option<Seq<char>> {
    match o {
        Some(x) => Some(x@),
        None => None,
    }
}

/// The position object of an extraction in the JSON export.
pub open spec fn json_position(e: Extraction, ci: CharInterval) -> Value {
    json_object_value(
        seq![
            ("start_char"@, json_number_value(Some(ci.start_pos.unwrap_or(0) as u64))),
            ("end_char"@, json_number_value(Some(ci.end_pos.unwrap_or(0) as u64))),
            ("alignment_status"@, json_string_value(status_name(e.alignment_status))),
        ],
    )
}

/// The object of an extraction in the JSON export.
pub open spec fn json_extraction(e: Extraction, show: bool) -> Value {
    json_object_value(
        seq![
            ("extraction_class"@, json_string_value(e.extraction_class@)),
            ("extraction_text"@, json_string_value(e.extraction_text@)),
            ("description"@, json_opt_string_value(opt_view(e.description))),
        ] + (match e.char_interval {
            Some(ci) => if show { seq![("char_interval"@, json_position(e, ci))] } else { seq![] },
            None => seq![],
        }) + match e.group_index {
            Some(g) => seq![("group_index"@, json_number_value(Some(g as u64)))],
            None => seq![],
        },
    )
}

/// The class counts as a JSON object.
pub open spec fn json_class_counts(pairs: Seq<(Seq<char>, nat)>) -> Value {
    json_object_value(pairs.map_values(|p: (Seq<char>, nat)| (p.0, json_number_value(Some(p.1 as u64)))))
}

/// The statistics object of the JSON export.
pub open spec fn json_statistics(doc: AnnotatedDocument) -> Value {
    json_object_value(
        seq![
            ("total_extractions"@, json_number_value(Some(crate::data::spec_extraction_count(doc) as u64))),
            ("text_length"@, json_number_value(Some(encode_utf8(text_or(doc.text, seq![])).len() as u64))),
        ] + match doc.extractions {
            Some(v) => seq![
                ("unique_classes"@, json_number_value(Some(class_pairs(v@).len() as u64))),
                ("extraction_classes"@, json_class_counts(class_pairs(v@))),
            ],
            None => seq![],
        },
    )
}

/// The JSON value of the JSON export: the document's id, the settings,
/// and, as asked, its text, extractions and statistics.
pub open spec fn json_export_value(doc: AnnotatedDocument, config: ExportConfig) -> Value {
    json_object_value(
        seq![
            ("document_id"@, json_opt_string_value(opt_view(doc.document_id))),
            ("export_config"@, json_object_value(
                seq![
                    ("format"@, json_string_value("json"@)),
                    ("show_char_intervals"@, json_bool_value(config.show_char_intervals)),
                    ("include_text"@, json_bool_value(config.include_text)),
                    ("include_statistics"@, json_bool_value(config.include_statistics)),
                    ("title"@, json_opt_string_value(opt_view(config.title))),
                ],
            )),
        ] + (if config.include_text { seq![("text"@, json_opt_string_value(opt_view(doc.text)))] } else { seq![] })
            + (match doc.extractions {
            Some(v) => seq![
                ("extractions"@, json_array_value(v@.map_values(|e: Extraction| json_extraction(e, config.show_char_intervals)))),
            ],
            None => seq![],
        }) + if config.include_statistics { seq![("statistics"@, json_statistics(doc))] } else { seq![] },
    )
}

fn clone_opt(o: &Option<String>) -> (r: Option<String>)
    ensures
        r == *o,
{
    match o {
        Some(x) => Some(x.clone()),
        None => None,
    }
}

fn status_string(st: Option<AlignmentStatus>) -> (r: String)
    ensures
        r@ == status_name(st),
{
    let mut out = String::new();
    push_status_name(&mut out, st);
    out
}

fn extraction_json_value(e: &Extraction, show: bool) -> (v: Value)
    ensures
        v == json_extraction(*e, show),
{
    let mut obj: Vec<(String, Value)> = Vec::new();
    obj.push(("extraction_class".to_string(), json_string(e.extraction_class.clone())));
    obj.push(("extraction_text".to_string(), json_string(e.extraction_text.clone())));
    obj.push(("description".to_string(), json_opt_string(clone_opt(&e.description))));
    let ghost head = entries_view(obj@);
    if show {
        if let Some(interval) = &e.char_interval {
            let mut ci: Vec<(String, Value)> = Vec::new();
            ci.push(("start_char".to_string(), json_number(Some(interval.start_pos.unwrap_or(0) as u64))));
            ci.push(("end_char".to_string(), json_number(Some(interval.end_pos.unwrap_or(0) as u64))));
            ci.push(("alignment_status".to_string(), json_string(status_string(e.alignment_status))));
            proof {
                assert(entries_view(ci@) =~= seq![
                    ("start_char"@, json_number_value(Some(interval.start_pos.unwrap_or(0) as u64))),
                    ("end_char"@, json_number_value(Some(interval.end_pos.unwrap_or(0) as u64))),
                    ("alignment_status"@, json_string_value(status_name(e.alignment_status))),
                ]);
            }
            obj.push(("char_interval".to_string(), json_object(ci)));
        }
    }
    let ghost mid = entries_view(obj@);
    if let Some(g) = e.group_index {
        obj.push(("group_index".to_string(), json_number(Some(g as u64))));
    }
    proof {
        assert(mid =~= head + match e.char_interval {
            Some(ci) => if show { seq![("char_interval"@, json_position(*e, ci))] } else { seq![] },
            None => seq![],
        });
        assert(entries_view(obj@) =~= mid + match e.group_index {
            Some(g) => seq![("group_index"@, json_number_value(Some(g as u64)))],
            None => seq![],
        });
        assert(head =~= seq![
            ("extraction_class"@, json_string_value(e.extraction_class@)),
            ("extraction_text"@, json_string_value(e.extraction_text@)),
            ("description"@, json_opt_string_value(opt_view(e.description))),
        ]);
        assert(entries_view(obj@) =~= seq![
            ("extraction_class"@, json_string_value(e.extraction_class@)),
            ("extraction_text"@, json_string_value(e.extraction_text@)),
            ("description"@, json_opt_string_value(opt_view(e.description))),
        ] + (match e.char_interval {
            Some(ci) => if show { seq![("char_interval"@, json_position(*e, ci))] } else { seq![] },
            None => seq![],
        }) + match e.group_index {
            Some(g) => seq![("group_index"@, json_number_value(Some(g as u64)))],
            None => seq![],
        });
    }
    json_object(obj)
}

fn class_counts_json(extractions: &Vec<Extraction>) -> (v: Value)
    ensures
        v == json_class_counts(class_pairs(extractions@)),
{
    let _n = extractions.len();
    let counts = count_extraction_classes(extractions.as_slice());
    let ghost pairs = class_pairs(extractions@);
    let mut obj: Vec<(String, Value)> = Vec::new();
    let mut k: usize = 0;
    while k < counts.len()
        invariant
            k <= counts@.len(),
            pairs == class_pairs(extractions@),
            counts@.len() == pairs.len(),
            forall|q: int| 0 <= q < counts@.len() ==> (#[trigger] counts@[q]).0@ == pairs[q].0 && counts@[q].1 == pairs[q].1,
            entries_view(obj@) == pairs.subrange(0, k as int).map_values(|p: (Seq<char>, nat)| (p.0, json_number_value(Some(p.1 as u64)))),
        decreases counts@.len() - k,
    {
        obj.push((counts[k].0.clone(), json_number(Some(counts[k].1 as u64))));
        proof {
            assert(pairs.subrange(0, k + 1).map_values(|p: (Seq<char>, nat)| (p.0, json_number_value(Some(p.1 as u64))))
                =~= pairs.subrange(0, k as int).map_values(|p: (Seq<char>, nat)| (p.0, json_number_value(Some(p.1 as u64)))).push(
                (pairs[k as int].0, json_number_value(Some(pairs[k as int].1 as u64)))));
            assert(entries_view(obj@) =~= pairs.subrange(0, k + 1).map_values(|p: (Seq<char>, nat)| (p.0, json_number_value(Some(p.1 as u64)))));
        }
        k = k + 1;
    }
    proof {
        assert(pairs.subrange(0, pairs.len() as int) =~= pairs);
    }
    json_object(obj)
}

fn statistics_json(doc: &AnnotatedDocument) -> (v: Value)
    ensures
        v == json_statistics(*doc),
{
    let text = str_or(&doc.text, "");
    let mut obj: Vec<(String, Value)> = Vec::new();
    obj.push(("total_extractions".to_string(), json_number(Some(doc.extraction_count() as u64))));
    obj.push(("text_length".to_string(), json_number(Some(byte_len(text) as u64))));
    let ghost head = entries_view(obj@);
    if let Some(extractions) = &doc.extractions {
        obj.push(("unique_classes".to_string(), json_number(Some(class_total(extractions) as u64))));
        obj.push(("extraction_classes".to_string(), class_counts_json(extractions)));
    }
    proof {
        reveal_strlit("");
        assert(""@ =~= Seq::<char>::empty());
        assert(entries_view(obj@) =~= seq![
            ("total_extractions"@, json_number_value(Some(crate::data::spec_extraction_count(*doc) as u64))),
            ("text_length"@, json_number_value(Some(encode_utf8(text_or(doc.text, seq![])).len() as u64))),
        ] + match doc.extractions {
            Some(v) => seq![
                ("unique_classes"@, json_number_value(Some(class_pairs(v@).len() as u64))),
                ("extraction_classes"@, json_class_counts(class_pairs(v@))),
            ],
            None => seq![],
        });
    }
    json_object(obj)
}

fn export_json_value(doc: &AnnotatedDocument, config: &ExportConfig) -> (v: Value)
    ensures
        v == json_export_value(*doc, *config),
{
    let mut cfg: Vec<(String, Value)> = Vec::new();
    cfg.push(("format".to_string(), json_string("json".to_string())));
    cfg.push(("show_char_intervals".to_string(), json_bool(config.show_char_intervals)));
    cfg.push(("include_text".to_string(), json_bool(config.include_text)));
    cfg.push(("include_statistics".to_string(), json_bool(config.include_statistics)));
    cfg.push(("title".to_string(), json_opt_string(clone_opt(&config.title))));
    proof {
        assert(entries_view(cfg@) =~= seq![
            ("format"@, json_string_value("json"@)),
            ("show_char_intervals"@, json_bool_value(config.show_char_intervals)),
            ("include_text"@, json_bool_value(config.include_text)),
            ("include_statistics"@, json_bool_value(config.include_statistics)),
            ("title"@, json_opt_string_value(opt_view(config.title))),
        ]);
    }
    let cfg_value = json_object(cfg);
    let mut root: Vec<(String, Value)> = Vec::new();
    root.push(("document_id".to_string(), json_opt_string(clone_opt(&doc.document_id))));
    root.push(("export_config".to_string(), cfg_value));
    let ghost r0 = entries_view(root@);
    proof {
        assert(r0 =~= seq![
            ("document_id"@, json_opt_string_value(opt_view(doc.document_id))),
            ("export_config"@, json_object_value(
                seq![
                    ("format"@, json_string_value("json"@)),
                    ("show_char_intervals"@, json_bool_value(config.show_char_intervals)),
                    ("include_text"@, json_bool_value(config.include_text)),
                    ("include_statistics"@, json_bool_value(config.include_statistics)),
                    ("title"@, json_opt_string_value(opt_view(config.title))),
                ],
            )),
        ]);
    }
    if config.include_text {
        root.push(("text".to_string(), json_opt_string(clone_opt(&doc.text))));
    }
    let ghost r1 = entries_view(root@);
    if let Some(extractions) = &doc.extractions {
        let mut items: Vec<Value> = Vec::new();
        let mut i: usize = 0;
        while i < extractions.len()
            invariant
                i <= extractions@.len(),
                items@ == extractions@.subrange(0, i as int).map_values(|e: Extraction| json_extraction(e, config.show_char_intervals)),
            decreases extractions@.len() - i,
        {
            let v = extraction_json_value(&extractions[i], config.show_char_intervals);
            items.push(v);
            proof {
                assert(extractions@.subrange(0, i + 1).map_values(|e: Extraction| json_extraction(e, config.show_char_intervals))
                    =~= extractions@.subrange(0, i as int).map_values(|e: Extraction| json_extraction(e, config.show_char_intervals)).push(v));
            }
            i = i + 1;
        }
        proof {
            assert(extractions@.subrange(0, extractions@.len() as int) =~= extractions@);
        }
        root.push(("extractions".to_string(), json_array(items)));
    }
    let ghost r2 = entries_view(root@);
    if config.include_statistics {
        root.push(("statistics".to_string(), statistics_json(doc)));
    }
    proof {
        assert(r1 =~= r0 + if config.include_text { seq![("text"@, json_opt_string_value(opt_view(doc.text)))] } else { seq![] });
        assert(r2 =~= r1 + match doc.extractions {
            Some(v) => seq![
                ("extractions"@, json_array_value(v@.map_values(|e: Extraction| json_extraction(e, config.show_char_intervals)))),
            ],
            None => seq![],
        });
        assert(entries_view(root@) =~= r2 + if config.include_statistics { seq![("statistics"@, json_statistics(*doc))] } else { seq![] });
    }
    json_object(root)
}

/// The JSON export of an annotated document, pretty-printed; see
/// [`json_export_value`]. Fails with a serialization error when printing
/// fails.
pub fn export_json(annotated_document: &AnnotatedDocument, config: &ExportConfig) -> (r: LangExtractResult<String>)
    ensures
        match pretty_json(json_export_value(*annotated_document, *config)) {
            Ok(s) => r matches Ok(x) && x@ == s,
            Err(m) => r matches Err(LangExtractError::SerializationError(x)) && x@ == json_error_message(m),
        },
{
    let v = export_json_value(annotated_document, config);
    match json_pretty(&v) {
        Ok(s) => Ok(s),
        Err(m) => {
            let mut message = String::new();
            push_str(&mut message, "JSON error: ");
            push_str(&mut message, m.as_str());
            Err(LangExtractError::SerializationError(message))
        },
    }
}

/// Exports an annotated document in the format its settings name.
pub fn export_document(annotated_document: &AnnotatedDocument, config: &ExportConfig) -> (r: LangExtractResult<String>)
    requires
        config.format == ExportFormat::Markdown ==> markdown_exportable(*annotated_document, *config),
    ensures
        config.format == ExportFormat::Text ==> (r matches Ok(s) && s@ == text_report(*annotated_document, config.show_char_intervals)),
        config.format == ExportFormat::Html ==> (r matches Ok(s) && s@ == html_page(*annotated_document, *config)),
        config.format == ExportFormat::Markdown ==> (r matches Ok(s) && s@ == markdown_page(*annotated_document, *config)),
        config.format == ExportFormat::Json ==> match pretty_json(json_export_value(*annotated_document, *config)) {
            Ok(s) => r matches Ok(x) && x@ == s,
            Err(m) => r matches Err(LangExtractError::SerializationError(x)) && x@ == json_error_message(m),
        },
        config.format == ExportFormat::Csv ==> (r matches Ok(s) && s@ == csv_header(config.show_char_intervals) + match annotated_document.extractions {
            Some(v) => csv_rows(v@, config.show_char_intervals),
            None => seq![],
        }),
{
    match config.format {
        ExportFormat::Text => visualize_text(annotated_document, config.show_char_intervals),
        ExportFormat::Html => export_html(annotated_document, config),
        ExportFormat::Markdown => export_markdown(annotated_document, config),
        ExportFormat::Json => export_json(annotated_document, config),
        ExportFormat::Csv => export_csv(annotated_document, config),
    }
}


fn md_piece_ok(text: &str, e: &Extraction, last_pos: usize) -> (r: bool)
    requires
        last_pos <= bytes(text).len(),
    ensures
        r == (md_piece(bytes(text), *e, last_pos as int) is Some),
{
    let n = byte_len(text);
    match &e.char_interval {
        None => true,
        Some(interval) => {
            let st = interval.start_pos.unwrap_or(0);
            let en = interval.end_pos.unwrap_or(0);
            let gap_ok = if st > last_pos && st <= n {
                text.is_char_boundary(last_pos) && text.is_char_boundary(st)
            } else {
                true
            };
            let bold_ok = if en <= n && st < en {
                text.is_char_boundary(st) && text.is_char_boundary(en)
            } else {
                true
            };
            gap_ok && bold_ok
        },
    }
}

/// Whether the Markdown export of the document can be written: every
/// slice that highlighting takes falls on character boundaries; see
/// [`markdown_exportable`].
pub fn markdown_exportable_now(doc: &AnnotatedDocument, config: &ExportConfig) -> (r: bool)
    ensures
        r == markdown_exportable(*doc, *config),
{
    if !(config.include_text && config.highlight_extractions) {
        return true;
    }
    let text = str_or(&doc.text, "No text");
    let extractions = match &doc.extractions {
        Some(v) => v,
        None => {
            return true;
        },
    };
    let ghost b = bytes(text);
    let n = byte_len(text);
    let mut entries: Vec<Keyed> = Vec::new();
    let mut i: usize = 0;
    while i < extractions.len()
        invariant
            i <= extractions@.len(),
            entries@ == start_entries(extractions@, i as int),
        decreases extractions@.len() - i,
    {
        let key = match &extractions[i].char_interval {
            Some(ci) => ci.start_pos.unwrap_or(usize::MAX),
            None => usize::MAX,
        };
        entries.push((key, 0, 0, i));
        i = i + 1;
    }
    proof {
        lemma_start_entries(extractions@, extractions@.len() as int);
        crate::layers::lemma_sorted_keyed(entries@);
        assert forall|k: int| 0 <= k < sorted_keyed(entries@).len() implies (#[trigger] sorted_keyed(entries@)[k]).3 < extractions@.len() by {
            assert(entries@.contains(sorted_keyed(entries@)[k]));
            let w = choose|w: int| 0 <= w < entries@.len() && entries@[w] == sorted_keyed(entries@)[k];
            assert(entries@[w].3 < extractions@.len());
        }
    }
    let order = sort_keyed(&entries);
    let ghost es = by_start(extractions@);
    let mut last_pos: usize = 0;
    let mut j: usize = 0;
    while j < order.len()
        invariant
            b == bytes(text),
            n == b.len(),
            j <= order@.len(),
            entries@ == start_entries(extractions@, extractions@.len() as int),
            order@ == sorted_keyed(entries@),
            es == by_start(extractions@),
            es.len() == order@.len(),
            forall|k: int| 0 <= k < order@.len() ==> (#[trigger] order@[k]).3 < extractions@.len(),
            last_pos <= n,
            text@ == text_or(doc.text, "No text"@),
            b == encode_utf8(text@),
            doc.extractions == Some(*extractions),
            config.include_text && config.highlight_extractions,
            (md_render(b, es, 0, 0) is Some) == (md_render(b, es, j as int, last_pos as int) is Some),
        decreases order@.len() - j,
    {
        let e = &extractions[order[j].3];
        proof {
            assert(es[j as int] == extractions@[order@[j as int].3 as int]);
        }
        if !md_piece_ok(text, e, last_pos) {
            proof {
                assert(md_render(b, es, j as int, last_pos as int) is None);
                assert(text@ == text_or(doc.text, "No text"@));
                assert(b == encode_utf8(text@));
                assert(markdown_highlight(text@, doc.extractions) is None);
            }
            return false;
        }
        let ghost old_last = last_pos;
        let next = match &e.char_interval {
            None => last_pos,
            Some(interval) => {
                let st = interval.start_pos.unwrap_or(0);
                let en = interval.end_pos.unwrap_or(0);
                if en <= n && st < en { en } else { last_pos }
            },
        };
        proof {
            assert(next as int == md_next(b, *e, old_last as int));
        }
        last_pos = next;
        j = j + 1;
    }
    proof {
        lemma_str_valid(text);
        is_char_boundary_start_end_of_seq(b);
        assert(text@ == text_or(doc.text, "No text"@));
    }
    if last_pos < n {
        text.is_char_boundary(last_pos)
    } else {
        true
    }
}


// ---------------------------------------------------------------------------
// Which extractions are highlighted.

/// The stretch of the text an extraction marks, when it has both ends, is
/// not empty and lies within a text of `len` bytes.
pub open spec fn marked_span(e: Extraction, len: int) -> Option<(usize, usize)> {
    match e.char_interval {
        Some(ci) => match (ci.start_pos, ci.end_pos) {
            (Some(st), Some(en)) => if st < en && en <= len { Some((st, en)) } else { None },
            _ => None,
        },
        None => None,
    }
}

/// Where the stretch an extraction marks starts, 0 when it marks none.
pub open spec fn marked_start(e: Extraction, len: int) -> int {
    match marked_span(e, len) {
        Some((st, _)) => st as int,
        None => 0,
    }
}

/// Where the stretch an extraction marks ends, 0 when it marks none.
pub open spec fn marked_end(e: Extraction, len: int) -> int {
    match marked_span(e, len) {
        Some((_, en)) => en as int,
        None => 0,
    }
}

/// The valid spans are those of the extractions that mark a stretch, each
/// with its position.
proof fn lemma_valid_spans_members(es: Seq<Extraction>, len: int)
    requires
        es.len() <= usize::MAX,
    ensures
        forall|q: int| 0 <= q < valid_spans(es, len).len() ==> {
            let y = #[trigger] valid_spans(es, len)[q];
            &&& y.2 < es.len()
            &&& marked_span(es[y.2 as int], len) == Some((y.0, y.1))
        },
        forall|i: int| 0 <= i < es.len() && (#[trigger] marked_span(es[i], len)) is Some ==> valid_spans(es, len).contains(
            (marked_start(es[i], len) as usize, marked_end(es[i], len) as usize, i as usize),
        ),
    decreases es.len(),
{
    if es.len() > 0 {
        let d = es.drop_last();
        lemma_valid_spans_members(d, len);
        let r = valid_spans(d, len);
        let vs = valid_spans(es, len);
        assert forall|q: int| 0 <= q < vs.len() implies {
            let y = #[trigger] vs[q];
            &&& y.2 < es.len()
            &&& marked_span(es[y.2 as int], len) == Some((y.0, y.1))
        } by {
            if q < r.len() {
                assert(vs[q] == r[q]);
                assert(d[r[q].2 as int] == es[r[q].2 as int]);
            }
        }
        assert forall|i: int| 0 <= i < es.len() && (#[trigger] marked_span(es[i], len)) is Some implies vs.contains(
            (marked_start(es[i], len) as usize, marked_end(es[i], len) as usize, i as usize),
        ) by {
            if i < d.len() {
                assert(d[i] == es[i]);
                assert(marked_span(d[i], len) is Some);
                let x = (marked_start(es[i], len) as usize, marked_end(es[i], len) as usize, i as usize);
                let w = choose|w: int| 0 <= w < r.len() && r[w] == x;
                assert(vs[w] == x);
            } else {
                assert(vs.last() == (marked_start(es[i], len) as usize, marked_end(es[i], len) as usize, i as usize));
            }
        }
    }
}

/// Where an entry goes in spans ordered by start: after those starting no
/// later, before the first starting later.
proof fn lemma_insert_position_split(t: Seq<Span>, key: usize, i: int)
    requires
        0 <= i <= t.len(),
    ensures
        i <= insert_position(t, key, i) <= t.len(),
        forall|k: int| i <= k < insert_position(t, key, i) ==> (#[trigger] t[k]).0 <= key,
        insert_position(t, key, i) < t.len() ==> t[insert_position(t, key, i)].0 > key,
    decreases t.len() - i,
{
    if i < t.len() && t[i].0 <= key {
        lemma_insert_position_split(t, key, i + 1);
    }
}

/// Ordering by start keeps the spans and orders them by start.
proof fn lemma_sorted_by_start(s: Seq<Span>)
    ensures
        sorted_by_start(s).len() == s.len(),
        forall|a: int, c: int| 0 <= a < c < s.len() ==> (#[trigger] sorted_by_start(s)[a]).0 <= (#[trigger] sorted_by_start(s)[c]).0,
        forall|y: Span| #[trigger] sorted_by_start(s).contains(y) <==> s.contains(y),
    decreases s.len(),
{
    if s.len() > 0 {
        let d = s.drop_last();
        lemma_sorted_by_start(d);
        let t = sorted_by_start(d);
        let x = s.last();
        lemma_insert_position_split(t, x.0, 0);
        let p = insert_position(t, x.0, 0);
        let r = t.insert(p, x);
        t.insert_ensures(p, x);
        assert(r == sorted_by_start(s));
        assert forall|a: int, c: int| 0 <= a < c < s.len() implies (#[trigger] r[a]).0 <= (#[trigger] r[c]).0 by {
            if a < p {
                assert(r[a] == t[a]);
                if c < p {
                    assert(r[c] == t[c]);
                } else if c > p {
                    assert(r[c] == t[c - 1]);
                    assert(t[p].0 > x.0);
                }
            } else if a == p {
                if c > p {
                    assert(r[c] == t[c - 1]);
                    assert(t[p].0 > x.0);
                    if c - 1 > p {
                        assert(t[p].0 <= t[c - 1].0);
                    }
                }
            } else {
                assert(r[a] == t[a - 1]);
                assert(r[c] == t[c - 1]);
            }
        }
        assert forall|y: Span| #[trigger] r.contains(y) <==> s.contains(y) by {
            if r.contains(y) {
                let w = choose|w: int| 0 <= w < r.len() && r[w] == y;
                if w < p {
                    assert(r[w] == t[w]);
                    assert(t.contains(y));
                    let u = choose|u: int| 0 <= u < d.len() && d[u] == y;
                    assert(s[u] == y);
                } else if w == p {
                    assert(s[s.len() - 1] == y);
                } else {
                    assert(r[w] == t[w - 1]);
                    assert(t.contains(y));
                    let u = choose|u: int| 0 <= u < d.len() && d[u] == y;
                    assert(s[u] == y);
                }
            }
            if s.contains(y) {
                let u = choose|u: int| 0 <= u < s.len() && s[u] == y;
                if u < d.len() {
                    assert(d[u] == y);
                    assert(d.contains(y));
                    assert(t.contains(y));
                    let w = choose|w: int| 0 <= w < t.len() && t[w] == y;
                    if w < p {
                        assert(r[w] == y);
                    } else {
                        assert(r[w + 1] == y);
                    }
                } else {
                    assert(r[p] == y);
                }
            }
        }
    }
}

/// A span no earlier span overlaps is kept when overlapping spans are
/// dropped.
proof fn lemma_non_overlapping_keeps(t: Seq<Span>, i: int, last_end: usize, p: int)
    requires
        0 <= i <= p < t.len(),
        last_end <= t[p].0,
        forall|j: int| i <= j < p ==> (#[trigger] t[j]) == t[p] || t[j].1 <= t[p].0,
    ensures
        non_overlapping(t, i, last_end).contains(t[p]),
    decreases p - i,
{
    let r = non_overlapping(t, i, last_end);
    if t[i] == t[p] {
        assert(r[0] == t[p]);
    } else if t[i].0 >= last_end {
        lemma_non_overlapping_keeps(t, i + 1, t[i].1, p);
        let rest = non_overlapping(t, i + 1, t[i].1);
        assert(r == seq![t[i]] + rest);
        let w = choose|w: int| 0 <= w < rest.len() && rest[w] == t[p];
        assert(r[w + 1] == t[p]);
    } else {
        lemma_non_overlapping_keeps(t, i + 1, last_end, p);
    }
}

/// The highlighted rendering from the `i`th kept span on holds the
/// highlight of each later kept span whose ends are character boundaries.
proof fn lemma_render_holds_span(b: Seq<u8>, es: Seq<Extraction>, f: Seq<Span>, i: int, last_pos: int, k: int)
    requires
        valid_utf8(b),
        0 <= last_pos <= b.len(),
        is_char_boundary(b, last_pos),
        0 <= i <= k < f.len(),
        forall|q: int| 0 <= q < f.len() ==> (#[trigger] f[q]).0 < f[q].1 <= b.len(),
        forall|q: int| i <= q < f.len() ==> (#[trigger] f[q]).0 >= last_pos,
        forall|a: int, c: int| 0 <= a < c < f.len() ==> (#[trigger] f[a]).1 <= (#[trigger] f[c]).0,
        is_char_boundary(b, f[k].0 as int),
        is_char_boundary(b, f[k].1 as int),
    ensures
        crate::templates::occurs_in(
            render_highlights(b, es, f, i, last_pos),
            highlight_span(
                es[f[k].2 as int].extraction_class@,
                es[f[k].2 as int].extraction_text@,
                text_between(b, f[k].0 as int, f[k].1 as int),
            ),
        ),
    decreases k - i,
{
    let x = f[i];
    let ss = find_char_boundary_spec(b, x.0 as int);
    let se = find_char_boundary_spec(b, x.1 as int);
    let r = render_highlights(b, es, f, i, last_pos);
    if (x.0 as int) < b.len() {
        lemma_char_floor(b, x.0 as int);
    }
    if (x.1 as int) < b.len() {
        lemma_char_floor(b, x.1 as int);
    }
    let before = if ss > last_pos { plain_gap(b, last_pos, ss) } else { seq![] };
    if i == k {
        assert(ss == x.0);
        assert(se == x.1);
        let e = es[x.2 as int];
        let h = highlight_span(e.extraction_class@, e.extraction_text@, text_between(b, ss, se));
        let rest = render_highlights(b, es, f, i + 1, se);
        assert(r == before + h + rest);
        assert(r.subrange(before.len() as int, before.len() + h.len() as int) =~= h);
    } else {
        if ss < se && se <= b.len() {
            let e = es[x.2 as int];
            let h = highlight_span(e.extraction_class@, e.extraction_text@, text_between(b, ss, se));
            assert forall|q: int| i + 1 <= q < f.len() implies (#[trigger] f[q]).0 >= se by {
                assert(f[i].1 <= f[q].0);
            }
            lemma_render_holds_span(b, es, f, i + 1, se, k);
            let rest = render_highlights(b, es, f, i + 1, se);
            let hk = highlight_span(
                es[f[k].2 as int].extraction_class@,
                es[f[k].2 as int].extraction_text@,
                text_between(b, f[k].0 as int, f[k].1 as int),
            );
            let o = choose|o: int| 0 <= o && o + hk.len() <= rest.len() && #[trigger] rest.subrange(o, o + hk.len()) == hk;
            let pre = before + h;
            assert(r == pre + rest);
            assert(r.subrange(pre.len() + o, pre.len() + o + hk.len()) =~= rest.subrange(o, o + hk.len()));
        } else {
            assert forall|q: int| i + 1 <= q < f.len() implies (#[trigger] f[q]).0 >= last_pos by {}
            lemma_render_holds_span(b, es, f, i + 1, last_pos, k);
        }
    }
}

/// Every extraction that marks a stretch overlapping no other extraction's
/// stretch, with both ends on character boundaries, is highlighted, wherever
/// it stands in the list: the HTML holds its highlight.
pub proof fn lemma_lone_extractions_highlighted(text: Seq<char>, v: Vec<Extraction>, i: int)
    requires
        v@.len() <= usize::MAX,
        0 <= i < v@.len(),
        marked_span(v@[i], encode_utf8(text).len() as int) is Some,
        is_char_boundary(encode_utf8(text), marked_start(v@[i], encode_utf8(text).len() as int)),
        is_char_boundary(encode_utf8(text), marked_end(v@[i], encode_utf8(text).len() as int)),
        forall|j: int| 0 <= j < v@.len() && j != i && (#[trigger] marked_span(v@[j], encode_utf8(text).len() as int)) is Some ==> {
            let len = encode_utf8(text).len() as int;
            marked_end(v@[j], len) <= marked_start(v@[i], len) || marked_end(v@[i], len) <= marked_start(v@[j], len)
        },
    ensures
        crate::templates::occurs_in(
            highlighted_html(text, Some(v)),
            highlight_span(
                v@[i].extraction_class@,
                v@[i].extraction_text@,
                text_between(
                    encode_utf8(text),
                    marked_start(v@[i], encode_utf8(text).len() as int),
                    marked_end(v@[i], encode_utf8(text).len() as int),
                ),
            ),
        ),
{
    let b = encode_utf8(text);
    let len = b.len() as int;
    encode_utf8_valid_utf8(text);
    is_char_boundary_start_end_of_seq(b);
    let es = v@;
    let x: Span = (marked_start(es[i], len) as usize, marked_end(es[i], len) as usize, i as usize);
    let spans = valid_spans(es, len);
    lemma_valid_spans(es, len);
    lemma_valid_spans_members(es, len);
    assert(marked_span(es[i], len) is Some);
    assert(spans.contains(x));
    lemma_sorted_by_start(spans);
    lemma_sorted_elements(spans, len, es.len() as int);
    let t = sorted_by_start(spans);
    assert(t.contains(x));
    let p = choose|p: int| 0 <= p < t.len() && t[p] == x;
    assert forall|j: int| 0 <= j < p implies (#[trigger] t[j]) == t[p] || t[j].1 <= t[p].0 by {
        assert(t.contains(t[j]));
        assert(spans.contains(t[j]));
        let q = choose|q: int| 0 <= q < spans.len() && spans[q] == t[j];
        let y = spans[q];
        assert(marked_span(es[y.2 as int], len) == Some((y.0, y.1)));
        assert(t[j].0 <= t[p].0);
        if y.2 as int != i {
            assert(marked_span(es[y.2 as int], len) is Some);
        }
    }
    lemma_non_overlapping_keeps(t, 0, 0, p);
    let f = non_overlapping(t, 0, 0);
    lemma_non_overlapping_apart(t, 0, 0, len);
    let k = choose|k: int| 0 <= k < f.len() && f[k] == x;
    lemma_render_holds_span(b, es, f, 0, 0, k);
}

} // verus!
