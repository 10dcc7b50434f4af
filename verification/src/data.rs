//! The documents, extractions and intervals the pipeline works on.

use vstd::prelude::*;
use serde_json::Value;
use crate::exceptions::{LangExtractError, LangExtractResult};
use crate::text::{push_str, push_char, trim_text, trim_ws};
use crate::providers::{to_lowercase, lowercase};

verus! {

/// How well an extraction lines up with the source text.
#[derive(Debug, Clone, Copy, PartialEq, Eq, Structural)]
pub enum AlignmentStatus {
    /// The extraction text occurs in the source exactly.
    MatchExact,
    /// The extraction text is longer than the source span.
    MatchGreater,
    /// The extraction text is shorter than the source span.
    MatchLesser,
    /// The extraction matches the source only approximately.
    MatchFuzzy,
}

/// A span of byte offsets into a text; either end may be unknown.
#[derive(Debug, Clone, Copy, PartialEq, Eq, Structural)]
pub struct CharInterval {
    /// First byte of the span.
    pub start_pos: Option<usize>,
    /// One past the last byte of the span.
    pub end_pos: Option<usize>,
}

/// Two known spans overlap.
pub open spec fn spec_overlaps(a: CharInterval, b: CharInterval) -> bool {
    match (a.start_pos, a.end_pos, b.start_pos, b.end_pos) {
        (Some(s1), Some(e1), Some(s2), Some(e2)) => s1 < e2 && s2 < e1,
        _ => false,
    }
}

impl CharInterval {
    /// A span with the given ends.
    pub fn new(start_pos: Option<usize>, end_pos: Option<usize>) -> (r: Self)
        ensures
            r.start_pos == start_pos,
            r.end_pos == end_pos,
    {
        CharInterval { start_pos, end_pos }
    }

    /// Whether both spans are fully known and share at least one byte.
    pub fn overlaps_with(&self, other: &CharInterval) -> (b: bool)
        ensures
            b == spec_overlaps(*self, *other),
    {
        match (self.start_pos, self.end_pos, other.start_pos, other.end_pos) {
            (Some(s1), Some(e1), Some(s2), Some(e2)) => s1 < e2 && s2 < e1,
            _ => false,
        }
    }

    /// The length of a fully known, well-ordered span.
    pub fn length(&self) -> (n: Option<usize>)
        ensures
            n == (match (self.start_pos, self.end_pos) {
                (Some(s), Some(e)) => if e >= s { Some((e - s) as usize) } else { None },
                _ => None,
            }),
    {
        match (self.start_pos, self.end_pos) {
            (Some(start), Some(end)) => if end >= start { Some(end - start) } else { None },
            _ => None,
        }
    }
}

/// A span of token positions; either end may be unknown.
#[derive(Debug, Clone, Copy, PartialEq, Eq, Structural)]
pub struct TokenInterval {
    /// The first token.
    pub start_token: Option<usize>,
    /// One past the last token.
    pub end_token: Option<usize>,
}

impl TokenInterval {
    /// A token span with the given ends.
    pub fn new(start_token: Option<usize>, end_token: Option<usize>) -> (r: Self)
        ensures
            r.start_token == start_token,
            r.end_token == end_token,
    {
        TokenInterval { start_token, end_token }
    }
}

/// The attributes of an extraction: keys in insertion order, each key once.
pub open spec fn keys_distinct<V>(entries: Seq<(String, V)>) -> bool {
    forall|i: int, j: int| 0 <= i < j < entries.len() ==> (#[trigger] entries[i]).0@ != (#[trigger] entries[j]).0@
}

/// The value stored for `key`, if any.
pub open spec fn lookup<V>(entries: Seq<(String, V)>, key: Seq<char>) -> Option<V>
    decreases entries.len(),
{
    if entries.len() == 0 {
        None
    } else if entries.last().0@ == key {
        Some(entries.last().1)
    } else {
        lookup(entries.drop_last(), key)
    }
}

/// A piece of information extracted from a text.
#[derive(Debug, Clone)]
pub struct Extraction {
    /// The class or type of the extraction.
    pub extraction_class: String,
    /// The extracted text.
    pub extraction_text: String,
    /// Where the extraction lies in the source text.
    pub char_interval: Option<CharInterval>,
    /// How well the extraction lines up with the source.
    pub alignment_status: Option<AlignmentStatus>,
    /// The position of the extraction in its list.
    pub extraction_index: Option<usize>,
    /// The group of related extractions it belongs to.
    pub group_index: Option<usize>,
    /// A human-readable description.
    pub description: Option<String>,
    /// Further attributes, as key and JSON value pairs.
    pub attributes: Option<Vec<(String, Value)>>,
    /// Where the extraction lies in the token sequence.
    pub token_interval: Option<TokenInterval>,
}

impl Extraction {
    /// An extraction with just a class and a text.
    pub fn new(extraction_class: String, extraction_text: String) -> (e: Self)
        ensures
            e.extraction_class == extraction_class,
            e.extraction_text == extraction_text,
            e.char_interval is None,
            e.alignment_status is None,
            e.extraction_index is None,
            e.group_index is None,
            e.description is None,
            e.attributes is None,
            e.token_interval is None,
    {
        Extraction {
            extraction_class,
            extraction_text,
            char_interval: None,
            alignment_status: None,
            extraction_index: None,
            group_index: None,
            description: None,
            attributes: None,
            token_interval: None,
        }
    }

    /// An extraction with a class, a text and a position.
    pub fn with_char_interval(extraction_class: String, extraction_text: String, char_interval: CharInterval) -> (e:
        Self)
        ensures
            e.extraction_class == extraction_class,
            e.extraction_text == extraction_text,
            e.char_interval == Some(char_interval),
            e.alignment_status is None,
            e.extraction_index is None,
            e.group_index is None,
            e.description is None,
            e.attributes is None,
            e.token_interval is None,
    {
        Extraction {
            extraction_class,
            extraction_text,
            char_interval: Some(char_interval),
            alignment_status: None,
            extraction_index: None,
            group_index: None,
            description: None,
            attributes: None,
            token_interval: None,
        }
    }

    /// Sets the position of the extraction.
    pub fn set_char_interval(&mut self, interval: CharInterval)
        ensures
            final(self).char_interval == Some(interval),
            final(self).extraction_class == old(self).extraction_class,
            final(self).extraction_text == old(self).extraction_text,
            final(self).alignment_status == old(self).alignment_status,
            final(self).extraction_index == old(self).extraction_index,
            final(self).group_index == old(self).group_index,
            final(self).description == old(self).description,
            final(self).attributes == old(self).attributes,
            final(self).token_interval == old(self).token_interval,
    {
        self.char_interval = Some(interval);
    }

    /// Sets an attribute, replacing any earlier value for the same key.
    pub fn set_attribute(&mut self, key: String, value: Value)
        requires
            old(self).attributes matches Some(a) ==> keys_distinct(a@),
        ensures
            final(self).attributes matches Some(a) && keys_distinct(a@)
                && lookup(a@, key@) == Some(value)
                && (forall|k: Seq<char>| k != key@ ==> lookup(a@, k) == (match old(self).attributes {
                    Some(o) => lookup(o@, k),
                    None => None,
                })),
            final(self).extraction_class == old(self).extraction_class,
            final(self).extraction_text == old(self).extraction_text,
            final(self).char_interval == old(self).char_interval,
            final(self).description == old(self).description,
            final(self).group_index == old(self).group_index,
            final(self).alignment_status == old(self).alignment_status,
            final(self).extraction_index == old(self).extraction_index,
            final(self).token_interval == old(self).token_interval,
    {
        let mut attrs = match self.attributes.take() {
            Some(a) => a,
            None => Vec::new(),
        };
        set_entry(&mut attrs, key, value);
        self.attributes = Some(attrs);
    }

    /// The value of an attribute.
    pub fn get_attribute(&self, key: &str) -> (v: Option<&Value>)
        ensures
            v == (match self.attributes {
                Some(a) => match lookup(a@, key@) {
                    Some(x) => Some(&x),
                    None => None,
                },
                None => None,
            }),
    {
        match &self.attributes {
            Some(a) => get_entry(a, key),
            None => None,
        }
    }

    /// Whether both extractions have known positions that overlap.
    pub fn overlaps_with(&self, other: &Extraction) -> (b: bool)
        ensures
            b == (match (self.char_interval, other.char_interval) {
                (Some(a), Some(c)) => spec_overlaps(a, c),
                _ => false,
            }),
    {
        match (&self.char_interval, &other.char_interval) {
            (Some(interval1), Some(interval2)) => interval1.overlaps_with(interval2),
            _ => false,
        }
    }
}

pub fn strings_equal(a: &str, b: &str) -> (r: bool)
    ensures
        r == (a@ == b@),
{
    let sa = a.to_string();
    let sb = b.to_string();
    sa == sb
}

pub fn set_entry<V>(entries: &mut Vec<(String, V)>, key: String, value: V)
    requires
        keys_distinct(old(entries)@),
    ensures
        keys_distinct(final(entries)@),
        lookup(final(entries)@, key@) == Some(value),
        forall|k: Seq<char>| k != key@ ==> lookup(final(entries)@, k) == lookup(old(entries)@, k),
{
    let mut i: usize = 0;
    while i < entries.len()
        invariant
            i <= entries@.len(),
            entries@ == old(entries)@,
            keys_distinct(entries@),
            forall|j: int| 0 <= j < i ==> (#[trigger] entries@[j]).0@ != key@,
        decreases entries@.len() - i,
    {
        if strings_equal(entries[i].0.as_str(), key.as_str()) {
            let ghost before = entries@;
            let old_key = entries[i].0.clone();
            entries.set(i, (old_key, value));
            proof {
                lemma_lookup_replace(before, i as int, value);
            }
            return;
        }
        i = i + 1;
    }
    let ghost before = entries@;
    entries.push((key, value));
    proof {
        assert(entries@.drop_last() =~= before);
        assert forall|a: int, b: int| 0 <= a < b < entries@.len() implies (#[trigger] entries@[a]).0@
            != (#[trigger] entries@[b]).0@ by {
            if b < before.len() {
                assert(entries@[a] == before[a]);
                assert(entries@[b] == before[b]);
            }
        }
    }
}

/// The extraction with each attribute key once: every key keeps the value
/// its last entry gives it, which is what [`lookup`] reads; the rest of the
/// extraction stays as it is.
pub fn dedupe_attributes(ex: Extraction) -> (r: Extraction)
    ensures
        r == (Extraction { attributes: r.attributes, ..ex }),
        match ex.attributes {
            None => r.attributes is None,
            Some(a) => r.attributes matches Some(d) && keys_distinct(d@) && forall|k: Seq<char>| #[trigger] lookup(d@, k)
                == lookup(a@, k),
        },
{
    match &ex.attributes {
        None => ex,
        Some(attrs) => {
            let mut kept: Vec<(String, Value)> = Vec::new();
            let mut i: usize = 0;
            while i < attrs.len()
                invariant
                    i <= attrs@.len(),
                    keys_distinct(kept@),
                    forall|k: Seq<char>| #[trigger] lookup(kept@, k) == lookup(attrs@.take(i as int), k),
                decreases attrs@.len() - i,
            {
                let key = attrs[i].0.clone();
                let value = attrs[i].1.clone();
                let ghost before = kept@;
                set_entry(&mut kept, key, value);
                proof {
                    let t = attrs@.take(i + 1);
                    assert(t.drop_last() =~= attrs@.take(i as int));
                    assert(t.last() == attrs@[i as int]);
                    assert forall|k: Seq<char>| #[trigger] lookup(kept@, k) == lookup(t, k) by {
                        if k != attrs@[i as int].0@ {
                            assert(lookup(kept@, k) == lookup(before, k));
                        }
                    }
                }
                i = i + 1;
            }
            proof {
                assert(attrs@.take(attrs@.len() as int) =~= attrs@);
            }
            Extraction { attributes: Some(kept), ..ex }
        },
    }
}

/// The text an extraction is compared by when results of several passes
/// are merged: its text lower-cased, then trimmed.
pub open spec fn text_key(e: Extraction) -> Seq<char> {
    trim_ws(lowercase(e.extraction_text@))
}

/// One of the first `n` extractions has the key.
pub open spec fn key_seen(es: Seq<Extraction>, k: Seq<char>, n: int) -> bool {
    exists|j: int| 0 <= j < n && #[trigger] text_key(es[j]) == k
}

/// The first `n` extractions without those whose key an earlier one has.
pub open spec fn first_of_each_text(es: Seq<Extraction>, n: int) -> Seq<Extraction>
    decreases n,
{
    if n <= 0 || n > es.len() {
        seq![]
    } else {
        first_of_each_text(es, n - 1) + if key_seen(es, text_key(es[n - 1]), n - 1) {
            Seq::<Extraction>::empty()
        } else {
            seq![es[n - 1]]
        }
    }
}

/// The key of an extraction's text; see [`text_key`].
fn extraction_key(e: &Extraction) -> (k: String)
    ensures
        k@ == text_key(*e),
{
    let lower = to_lowercase(e.extraction_text.as_str());
    trim_text(lower.as_str())
}

/// Keeps the first extraction of each text, comparing texts lower-cased and
/// trimmed; gives the kept extractions, in order, and how many were dropped.
pub fn dedupe_by_text(extractions: Vec<Extraction>) -> (r: (Vec<Extraction>, usize))
    ensures
        r.0@ == first_of_each_text(extractions@, extractions@.len() as int),
        r.0@.len() + r.1 == extractions@.len(),
{
    let ghost es = extractions@;
    let mut rest = extractions;
    let n = rest.len();
    let mut kept: Vec<Extraction> = Vec::new();
    let mut keys: Vec<String> = Vec::new();
    let mut dropped: usize = 0;
    let mut i: usize = 0;
    while rest.len() > 0
        invariant
            n == es.len(),
            i <= es.len(),
            rest@ == es.subrange(i as int, es.len() as int),
            keys@.len() == i,
            forall|j: int| 0 <= j < i ==> (#[trigger] keys@[j])@ == text_key(es[j]),
            kept@ == first_of_each_text(es, i as int),
            kept@.len() + dropped == i,
        decreases rest@.len(),
    {
        let e = rest.remove(0);
        proof {
            assert(e == es[i as int]);
        }
        let k = extraction_key(&e);
        let mut seen = false;
        let mut q: usize = 0;
        while q < keys.len()
            invariant
                q <= keys@.len(),
                i < es.len(),
                keys@.len() == i,
                forall|j: int| 0 <= j < i ==> (#[trigger] keys@[j])@ == text_key(es[j]),
                seen == exists|j: int| 0 <= j < q && #[trigger] text_key(es[j]) == k@,
            decreases keys@.len() - q,
        {
            if strings_equal(keys[q].as_str(), k.as_str()) {
                seen = true;
            }
            proof {
                assert(keys@[q as int]@ == text_key(es[q as int]));
            }
            q = q + 1;
        }
        proof {
            assert(seen == key_seen(es, text_key(es[i as int]), i as int));
        }
        if seen {
            dropped = dropped + 1;
            proof {
                assert(first_of_each_text(es, i + 1) =~= first_of_each_text(es, i as int));
            }
        } else {
            kept.push(e);
        }
        keys.push(k);
        i = i + 1;
        proof {
            assert(rest@ =~= es.subrange(i as int, es.len() as int));
        }
    }
    proof {
        assert(i == es.len());
    }
    (kept, dropped)
}

proof fn lemma_lookup_update_other<V>(entries: Seq<(String, V)>, i: int, value: V, k: Seq<char>)
    requires
        0 <= i < entries.len(),
        k != entries[i].0@,
    ensures
        lookup(entries.update(i, (entries[i].0, value)), k) == lookup(entries, k),
    decreases entries.len(),
{
    let updated = entries.update(i, (entries[i].0, value));
    if i == entries.len() - 1 {
        assert(updated.drop_last() =~= entries.drop_last());
    } else {
        assert(updated.drop_last() =~= entries.drop_last().update(i, (entries[i].0, value)));
        assert(updated.last() == entries.last());
        lemma_lookup_update_other(entries.drop_last(), i, value, k);
    }
}

proof fn lemma_lookup_replace<V>(entries: Seq<(String, V)>, i: int, value: V)
    requires
        0 <= i < entries.len(),
        keys_distinct(entries),
    ensures
        keys_distinct(entries.update(i, (entries[i].0, value))),
        lookup(entries.update(i, (entries[i].0, value)), entries[i].0@) == Some(value),
        forall|k: Seq<char>| k != entries[i].0@ ==> lookup(entries.update(i, (entries[i].0, value)), k)
            == lookup(entries, k),
    decreases entries.len(),
{
    let updated = entries.update(i, (entries[i].0, value));
    assert forall|a: int, b: int| 0 <= a < b < updated.len() implies (#[trigger] updated[a]).0@
        != (#[trigger] updated[b]).0@ by {
        assert(entries[a].0 == updated[a].0);
        assert(entries[b].0 == updated[b].0);
    }
    if i == entries.len() - 1 {
        assert(updated.drop_last() =~= entries.drop_last());
    } else {
        assert(updated.drop_last() =~= entries.drop_last().update(i, (entries[i].0, value)));
        lemma_lookup_replace(entries.drop_last(), i, value);
        assert(entries.last().0@ != entries[i].0@);
    }
    assert forall|k: Seq<char>| k != entries[i].0@ implies lookup(updated, k) == lookup(entries, k) by {
        lemma_lookup_update_other(entries, i, value, k);
    }
}

pub fn get_entry<'a, V>(entries: &'a Vec<(String, V)>, key: &str) -> (v: Option<&'a V>)
    ensures
        v == (match lookup(entries@, key@) {
            Some(x) => Some(&x),
            None => None,
        }),
{
    let mut i = entries.len();
    proof {
        assert(entries@.subrange(0, i as int) =~= entries@);
    }
    while i > 0
        invariant
            i <= entries@.len(),
            lookup(entries@, key@) == lookup(entries@.subrange(0, i as int), key@),
        decreases i,
    {
        proof {
            assert(entries@.subrange(0, i as int).drop_last() =~= entries@.subrange(0, i - 1));
        }
        if strings_equal(entries[i - 1].0.as_str(), key) {
            return Some(&entries[i - 1].1);
        }
        i = i - 1;
    }
    None
}

/// A lowercase hexadecimal digit.
pub open spec fn is_lower_hex(c: char) -> bool {
    ('0' <= c <= '9') || ('a' <= c <= 'f')
}

/// A freshly generated document id: `doc_` followed by eight lowercase
/// hexadecimal digits.
pub open spec fn is_generated_id(s: Seq<char>) -> bool {
    &&& s.len() == 12
    &&& s.subrange(0, 4) == "doc_"@
    &&& forall|k: int| 4 <= k < 12 ==> is_lower_hex(#[trigger] s[k])
}

/// `uuid::Uuid::new_v4()` rendered by its `simple()` formatter: a random
/// UUID as 32 lowercase hexadecimal digits, as uuid's formatting source
/// writes it. Which digits come out is left open: they are random.
#[verifier::external_body]
fn random_uuid_hex() -> (s: String)
    ensures
        s@.len() == 32,
        forall|k: int| 0 <= k < 32 ==> is_lower_hex(#[trigger] s@[k]),
{
    uuid::Uuid::new_v4().simple().to_string()
}

/// A fresh `doc_` id from eight random hexadecimal digits.
fn generate_document_id() -> (id: String)
    ensures
        is_generated_id(id@),
{
    let hex = random_uuid_hex();
    let mut id = String::new();
    push_str(&mut id, "doc_");
    proof {
        reveal_strlit("doc_");
        assert(id@ =~= "doc_"@);
    }
    let mut k: usize = 0;
    while k < 8
        invariant
            k <= 8,
            hex@.len() == 32,
            forall|j: int| 0 <= j < 32 ==> is_lower_hex(#[trigger] hex@[j]),
            id@.len() == 4 + k,
            id@.subrange(0, 4) == "doc_"@,
            forall|j: int| 4 <= j < 4 + k ==> is_lower_hex(#[trigger] id@[j]),
        decreases 8 - k,
    {
        let c = hex.as_str().get_char(k);
        let ghost before = id@;
        push_char(&mut id, c);
        proof {
            assert(id@.subrange(0, 4) =~= before.subrange(0, 4));
            assert(id@[4 + k as int] == hex@[k as int]);
        }
        k = k + 1;
    }
    id
}

/// A document to run through the pipeline.
#[derive(Debug, Clone, PartialEq, Eq)]
pub struct Document {
    /// The document's text.
    pub text: String,
    /// Context that supplements the prompt.
    pub additional_context: Option<String>,
    /// The document's id.
    pub document_id: Option<String>,
}

impl Document {
    /// A document with the given text.
    pub fn new(text: String) -> (d: Self)
        ensures
            d.text == text,
            d.additional_context is None,
            d.document_id is None,
    {
        Document { text, additional_context: None, document_id: None }
    }

    /// A document with text and additional context.
    pub fn with_context(text: String, additional_context: String) -> (d: Self)
        ensures
            d.text == text,
            d.additional_context == Some(additional_context),
            d.document_id is None,
    {
        Document { text, additional_context: Some(additional_context), document_id: None }
    }

    /// The document's id, generating and keeping a fresh `doc_` id when it
    /// has none yet.
    pub fn get_document_id(&mut self) -> (id: String)
        ensures
            final(self).document_id matches Some(stored) && stored@ == id@,
            final(self).text == old(self).text,
            final(self).additional_context == old(self).additional_context,
            old(self).document_id matches Some(old_id) ==> id@ == old_id@ && final(self).document_id
                == old(self).document_id,
            old(self).document_id is None ==> is_generated_id(id@) && (final(self).document_id matches Some(
                new_id,
            ) && new_id@ == id@),
    {
        match &self.document_id {
            Some(id) => id.clone(),
            None => {
                let id = generate_document_id();
                self.document_id = Some(id.clone());
                id
            },
        }
    }

    /// Sets the document's id.
    pub fn set_document_id(&mut self, id: String)
        ensures
            final(self).text == old(self).text,
            final(self).additional_context == old(self).additional_context,
            final(self).document_id == Some(id),
    {
        self.document_id = Some(id);
    }

    /// A copy of the document with the same fields.
    pub fn duplicate(&self) -> (d: Self)
        ensures
            d == *self,
    {
        Document {
            text: self.text.clone(),
            additional_context: match &self.additional_context {
                Some(c) => Some(c.clone()),
                None => None,
            },
            document_id: match &self.document_id {
                Some(c) => Some(c.clone()),
                None => None,
            },
        }
    }
}

/// A text together with what was extracted from it.
#[derive(Debug, Clone)]
pub struct AnnotatedDocument {
    /// The document's id.
    pub document_id: Option<String>,
    /// The extractions found in the document.
    pub extractions: Option<Vec<Extraction>>,
    /// The document's text.
    pub text: Option<String>,
}

/// The number of extractions of a document.
pub open spec fn spec_extraction_count(d: AnnotatedDocument) -> nat {
    match d.extractions {
        Some(v) => v@.len(),
        None => 0,
    }
}

impl AnnotatedDocument {
    /// An empty annotated document.
    pub fn new() -> (d: Self)
        ensures
            d.document_id is None,
            d.extractions is None,
            d.text is None,
    {
        AnnotatedDocument { document_id: None, extractions: None, text: None }
    }

    /// An annotated document with extractions and text.
    pub fn with_extractions(extractions: Vec<Extraction>, text: String) -> (d: Self)
        ensures
            d.document_id is None,
            d.extractions == Some(extractions),
            d.text == Some(text),
    {
        AnnotatedDocument { document_id: None, extractions: Some(extractions), text: Some(text) }
    }

    /// The document's id, generating and keeping a fresh `doc_` id when it
    /// has none yet.
    pub fn get_document_id(&mut self) -> (id: String)
        ensures
            final(self).document_id matches Some(stored) && stored@ == id@,
            final(self).text == old(self).text,
            final(self).extractions == old(self).extractions,
            old(self).document_id matches Some(old_id) ==> id@ == old_id@ && final(self).document_id
                == old(self).document_id,
            old(self).document_id is None ==> is_generated_id(id@) && (final(self).document_id matches Some(
                new_id,
            ) && new_id@ == id@),
    {
        match &self.document_id {
            Some(id) => id.clone(),
            None => {
                let id = generate_document_id();
                self.document_id = Some(id.clone());
                id
            },
        }
    }

    /// Sets the document's id.
    pub fn set_document_id(&mut self, id: String)
        ensures
            final(self).text == old(self).text,
            final(self).extractions == old(self).extractions,
            final(self).document_id == Some(id),
    {
        self.document_id = Some(id);
    }

    /// Appends an extraction.
    pub fn add_extraction(&mut self, extraction: Extraction)
        ensures
            final(self).text == old(self).text,
            final(self).document_id == old(self).document_id,
            final(self).extractions matches Some(v) && v@ == (match old(self).extractions {
                Some(o) => o@,
                None => Seq::empty(),
            }).push(extraction),
    {
        let mut list = match self.extractions.take() {
            Some(v) => v,
            None => Vec::new(),
        };
        list.push(extraction);
        self.extractions = Some(list);
    }

    /// The number of extractions.
    pub fn extraction_count(&self) -> (n: usize)
        ensures
            n == spec_extraction_count(*self),
    {
        match &self.extractions {
            Some(v) => v.len(),
            None => 0,
        }
    }

    /// The extractions of the given class, in order.
    pub fn extractions_by_class(&self, class_name: &str) -> (r: Vec<&Extraction>)
        ensures
            r@.map_values(|e: &Extraction| *e) == (match self.extractions {
                Some(v) => v@.filter(|e: Extraction| e.extraction_class@ == class_name@),
                None => Seq::empty(),
            }),
    {
        let mut out: Vec<&Extraction> = Vec::new();
        match &self.extractions {
            Some(v) => {
                let ghost pred = |e: Extraction| e.extraction_class@ == class_name@;
                let mut i: usize = 0;
                while i < v.len()
                    invariant
                        i <= v@.len(),
                        pred == (|e: Extraction| e.extraction_class@ == class_name@),
                        out@.map_values(|e: &Extraction| *e) == v@.subrange(0, i as int).filter(pred),
                    decreases v@.len() - i,
                {
                    proof {
                        reveal_with_fuel(Seq::<_>::filter, 1);
                        assert(v@.subrange(0, i + 1).drop_last() =~= v@.subrange(0, i as int));
                    }
                    let e = &v[i];
                    let ghost before = out@;
                    let ghost sub = v@.subrange(0, i + 1);
                    proof {
                        assert(sub.last() == v@[i as int]);
                        assert(sub.filter(pred) == (if pred(sub.last()) {
                            sub.drop_last().filter(pred).push(sub.last())
                        } else {
                            sub.drop_last().filter(pred)
                        }));
                    }
                    let keep = strings_equal(e.extraction_class.as_str(), class_name);
                    proof {
                        assert(*e == v@[i as int]);
                        assert(keep == (e.extraction_class@ == class_name@));
                        assert(pred(*e) == (e.extraction_class@ == class_name@));
                    }
                    if keep {
                        out.push(e);
                        proof {
                            assert(out@.map_values(|e: &Extraction| *e) =~= before.map_values(|e: &Extraction| *e).push(*e));
                        }
                    } else {
                        proof {
                            assert(out@.map_values(|e: &Extraction| *e) == sub.drop_last().filter(pred));
                        }
                    }
                    i = i + 1;
                }
                proof {
                    assert(v@.subrange(0, v@.len() as int) =~= v@);
                }
            },
            None => {
                proof {
                    assert(out@.map_values(|e: &Extraction| *e) =~= Seq::<Extraction>::empty());
                }
            },
        }
        out
    }
}

impl Default for AnnotatedDocument {
    fn default() -> (d: Self) {
        AnnotatedDocument { document_id: None, extractions: None, text: None }
    }
}

/// The output formats a model can be asked for.
#[derive(Debug, Clone, Copy, PartialEq, Eq, Structural)]
pub enum FormatType {
    /// JSON.
    Json,
    /// YAML.
    Yaml,
}

/// The name of a format: `json` or `yaml`.
pub open spec fn format_name(f: FormatType) -> Seq<char> {
    match f {
        FormatType::Json => "json"@,
        FormatType::Yaml => "yaml"@,
    }
}

/// ASCII case folding of one character.
pub open spec fn ascii_lower(c: char) -> char {
    if 'A' <= c <= 'Z' { ((c as u32) + 32) as char } else { c }
}

/// The two texts are equal up to ASCII case.
pub open spec fn eq_ignore_ascii_case(a: Seq<char>, b: Seq<char>) -> bool {
    a.len() == b.len() && forall|k: int| 0 <= k < a.len() ==> ascii_lower(#[trigger] a[k]) == ascii_lower(b[k])
}

fn lower_char(c: char) -> (r: char)
    ensures
        r == ascii_lower(c),
{
    if 'A' <= c && c <= 'Z' {
        let code: u8 = (c as u8) + 32;
        code as char
    } else {
        c
    }
}

/// Compares two texts up to ASCII case.
pub fn equals_ignore_ascii_case(a: &str, b: &str) -> (r: bool)
    ensures
        r == eq_ignore_ascii_case(a@, b@),
{
    let n = a.unicode_len();
    if n != b.unicode_len() {
        return false;
    }
    let mut k: usize = 0;
    while k < n
        invariant
            n == a@.len() == b@.len(),
            k <= n,
            forall|j: int| 0 <= j < k ==> ascii_lower(#[trigger] a@[j]) == ascii_lower(b@[j]),
        decreases n - k,
    {
        if lower_char(a.get_char(k)) != lower_char(b.get_char(k)) {
            return false;
        }
        k = k + 1;
    }
    true
}

/// The text `Invalid format type: {s}`.
pub open spec fn invalid_format_message(s: Seq<char>) -> Seq<char> {
    "Invalid format type: "@ + s
}

impl FormatType {
    /// Reads a format name, ignoring case: `json` or `yaml`.
    ///
    /// Unicode case folding of a text gives `json` or `yaml` exactly when
    /// ASCII case folding does, since no non-ASCII character folds to one of
    /// their letters.
    pub fn parse_format(s: &str) -> (r: Result<FormatType, String>)
        ensures
            eq_ignore_ascii_case(s@, "json"@) ==> r == Ok::<FormatType, String>(FormatType::Json),
            !eq_ignore_ascii_case(s@, "json"@) && eq_ignore_ascii_case(s@, "yaml"@) ==> r == Ok::<
                FormatType,
                String,
            >(FormatType::Yaml),
            !eq_ignore_ascii_case(s@, "json"@) && !eq_ignore_ascii_case(s@, "yaml"@) ==> (r matches Err(m)
                && m@ == invalid_format_message(s@)),
    {
        if equals_ignore_ascii_case(s, "json") {
            Ok(FormatType::Json)
        } else if equals_ignore_ascii_case(s, "yaml") {
            Ok(FormatType::Yaml)
        } else {
            let mut m = String::new();
            push_str(&mut m, "Invalid format type: ");
            push_str(&mut m, s);
            proof {
                assert(m@ =~= invalid_format_message(s@));
            }
            Err(m)
        }
    }

    /// The format's name, `json` or `yaml`.
    pub fn to_string(&self) -> (r: String)
        ensures
            r@ == format_name(*self),
    {
        match self {
            FormatType::Json => "json".to_string(),
            FormatType::Yaml => "yaml".to_string(),
        }
    }
}

impl std::str::FromStr for FormatType {
    type Err = String;

    fn from_str(s: &str) -> (r: Result<Self, Self::Err>)
        ensures
            eq_ignore_ascii_case(s@, "json"@) ==> r == Ok::<FormatType, String>(FormatType::Json),
            !eq_ignore_ascii_case(s@, "json"@) && eq_ignore_ascii_case(s@, "yaml"@) ==> r == Ok::<
                FormatType,
                String,
            >(FormatType::Yaml),
            !eq_ignore_ascii_case(s@, "json"@) && !eq_ignore_ascii_case(s@, "yaml"@) ==> (r matches Err(m)
                && m@ == invalid_format_message(s@)),
    {
        FormatType::parse_format(s)
    }
}

/// A worked example that shows the model what to extract from a text.
#[derive(Debug, Clone)]
pub struct ExampleData {
    /// The example's text.
    pub text: String,
    /// What should be extracted from it.
    pub extractions: Vec<Extraction>,
}

impl ExampleData {
    /// An example with text and extractions.
    pub fn new(text: String, extractions: Vec<Extraction>) -> (e: Self)
        ensures
            e.text == text,
            e.extractions == extractions,
    {
        ExampleData { text, extractions }
    }

    /// An example with text and no extractions yet.
    pub fn with_text(text: String) -> (e: Self)
        ensures
            e.text == text,
            e.extractions@.len() == 0,
    {
        ExampleData { text, extractions: Vec::new() }
    }

    /// Appends an extraction.
    pub fn add_extraction(&mut self, extraction: Extraction)
        ensures
            final(self).text == old(self).text,
            final(self).extractions@ == old(self).extractions@.push(extraction),
    {
        self.extractions.push(extraction);
    }
}

} // verus!
