//! Splitting documents into chunks that fit a model's context window.
//!
//! Two chunkers live here. [`TextChunker`] cuts raw text by size, sentence,
//! paragraph or semantic boundaries. [`ChunkIterator`] walks the tokens of a
//! tokenized text and groups whole sentences into chunks of at most
//! `max_char_buffer` bytes, breaking a sentence only when it does not fit,
//! preferably at a line break.

use vstd::prelude::*;
use vstd::utf8::*;
use crate::text::{
    bytes, string_bytes, byte_len, substr, lemma_str_valid, lemma_boundary_after_ascii, push_str, push_char, squeeze_trim, squeeze_ws, trim_ws,
    is_white_space, white_space, chars_of,
};
use crate::exceptions::{LangExtractError, LangExtractResult};
use crate::data::{CharInterval, Document};
use crate::tokenizer::{
    Token, TokenInterval, TokenizedText, Tokenizer, SentenceIterator, spec_tokens, tokens_ordered,
    tokens_text_outcome, sentence_end_from, lemma_sentence_end_bounds, skip_ws, skip_ws_at, lemma_skip_ws_bounds,
    lemma_skip_ws_boundary,
};

verus! {

broadcast use vstd::seq::group_seq_axioms;

// ---------------------------------------------------------------------------
// Text chunks.

/// A piece of a document's text together with where it came from.
#[derive(Debug, Clone)]
pub struct TextChunk {
    /// The chunk's position among the chunks of its document.
    pub id: usize,
    /// The chunk's text.
    pub text: String,
    /// Byte offset of the chunk in the document.
    pub char_offset: usize,
    /// Length of the chunk in bytes.
    pub char_length: usize,
    /// The document the chunk belongs to.
    pub document_id: Option<String>,
    /// Whether the chunk shares text with a neighbour.
    pub has_overlap: bool,
    /// Bytes shared with the previous and with the next chunk.
    pub overlap_info: Option<(usize, usize)>,
}

impl TextChunk {
    /// A chunk without overlap.
    pub fn new(id: usize, text: String, char_offset: usize, document_id: Option<String>) -> (c: Self)
        ensures
            c.id == id,
            c.text == text,
            c.char_offset == char_offset,
            c.char_length == string_bytes(text).len(),
            c.document_id == document_id,
            !c.has_overlap,
            c.overlap_info is None,
    {
        let char_length = byte_len(text.as_str());
        TextChunk { id, text, char_offset, char_length, document_id, has_overlap: false, overlap_info: None }
    }

    /// A chunk that shares `overlap_start` bytes with the previous chunk and
    /// `overlap_end` bytes with the next.
    pub fn with_overlap(
        id: usize,
        text: String,
        char_offset: usize,
        document_id: Option<String>,
        overlap_start: usize,
        overlap_end: usize,
    ) -> (c: Self)
        ensures
            c.id == id,
            c.text == text,
            c.char_offset == char_offset,
            c.char_length == string_bytes(text).len(),
            c.document_id == document_id,
            c.has_overlap == (overlap_start > 0 || overlap_end > 0),
            c.overlap_info == Some((overlap_start, overlap_end)),
    {
        let char_length = byte_len(text.as_str());
        TextChunk {
            id,
            text,
            char_offset,
            char_length,
            document_id,
            has_overlap: overlap_start > 0 || overlap_end > 0,
            overlap_info: Some((overlap_start, overlap_end)),
        }
    }

    /// A copy of the chunk.
    pub fn duplicate(&self) -> (c: Self)
        ensures
            c == *self,
    {
        TextChunk {
            id: self.id,
            text: self.text.clone(),
            char_offset: self.char_offset,
            char_length: self.char_length,
            document_id: clone_opt_string(&self.document_id),
            has_overlap: self.has_overlap,
            overlap_info: self.overlap_info,
        }
    }

    /// The span of the document the chunk covers.
    pub fn char_interval(&self) -> (r: CharInterval)
        requires
            self.char_offset + self.char_length <= usize::MAX,
        ensures
            r.start_pos == Some(self.char_offset),
            r.end_pos == Some((self.char_offset + self.char_length) as usize),
    {
        CharInterval::new(Some(self.char_offset), Some(self.char_offset + self.char_length))
    }

    /// The end of the chunk's core: its length less the bytes it shares
    /// with the next chunk, and 0 when those are more than its length.
    pub open spec fn core_end(&self) -> int {
        match self.overlap_info {
            Some((_, e)) => if string_bytes(self.text).len() >= e { string_bytes(self.text).len() - e } else { 0 },
            None => string_bytes(self.text).len() as int,
        }
    }

    /// The chunk's text without the parts it shares with its neighbours.
    pub fn core_text(&self) -> (r: &str)
        requires
            self.overlap_info matches Some((s, _)) ==> s <= self.core_end() && is_char_boundary(
                string_bytes(self.text),
                s as int,
            ) && is_char_boundary(string_bytes(self.text), self.core_end()),
        ensures
            self.overlap_info matches Some((s, _)) ==> bytes(r) == string_bytes(self.text).subrange(
                s as int,
                self.core_end(),
            ),
            self.overlap_info is None ==> r@ == self.text@,
    {
        match self.overlap_info {
            Some((start_overlap, end_overlap)) => {
                let end = byte_len(self.text.as_str()).saturating_sub(end_overlap);
                substr(self.text.as_str(), start_overlap, end)
            },
            None => self.text.as_str(),
        }
    }
}

// ---------------------------------------------------------------------------
// Token chunks.

/// A span of tokens of a document, whose text is read back through a
/// tokenizer.
#[derive(Debug, Clone)]
pub struct TokenChunk {
    /// The tokens the chunk covers.
    pub token_interval: TokenInterval,
    /// The document the tokens belong to.
    pub document: Option<Document>,
    chunk_text: Option<String>,
    char_interval: Option<CharInterval>,
    custom_char_end: Option<usize>,
}

/// Whether byte `i` of `text` starts a character or ends the text.
pub fn boundary_at(text: &str, i: usize) -> (b: bool)
    requires
        i <= bytes(text).len(),
    ensures
        b == is_char_boundary(bytes(text), i as int),
{
    proof {
        lemma_str_valid(text);
        crate::text::lemma_boundary_iff(bytes(text), i as int);
    }
    if i == byte_len(text) {
        true
    } else {
        let x = text.as_bytes()[i];
        x < 0x80 || x > 0xbf
    }
}

/// The tokens of a document's text.
pub open spec fn doc_tokens(d: Document) -> Seq<Token> {
    spec_tokens(string_bytes(d.text))
}

impl TokenChunk {
    /// The tokens the chunk covers.
    pub closed spec fn interval(&self) -> TokenInterval {
        self.token_interval
    }

    /// The document the tokens belong to.
    pub closed spec fn doc(&self) -> Option<Document> {
        self.document
    }

    /// A text remembered for the chunk, returned in place of reading it.
    pub closed spec fn cached_text(&self) -> Option<String> {
        self.chunk_text
    }

    /// A span remembered for the chunk, returned in place of computing it.
    pub closed spec fn cached_interval(&self) -> Option<CharInterval> {
        self.char_interval
    }

    /// A byte offset where the chunk's text ends in place of its last token's end.
    pub closed spec fn custom_end(&self) -> Option<usize> {
        self.custom_char_end
    }

    /// A chunk of the given tokens.
    pub fn new(token_interval: TokenInterval, document: Option<Document>) -> (c: Self)
        ensures
            c.interval() == token_interval,
            c.doc() == document,
            c.cached_text() is None,
            c.cached_interval() is None,
            c.custom_end() is None,
    {
        TokenChunk { token_interval, document, chunk_text: None, char_interval: None, custom_char_end: None }
    }

    /// A chunk of the given tokens whose text runs to byte `char_end` of the
    /// document, so that it takes in the whitespace after its last token.
    pub fn with_char_end(token_interval: TokenInterval, document: Option<Document>, char_end: usize) -> (c: Self)
        ensures
            c.interval() == token_interval,
            c.doc() == document,
            c.cached_text() is None,
            c.cached_interval() is None,
            c.custom_end() == Some(char_end),
    {
        TokenChunk {
            token_interval,
            document,
            chunk_text: None,
            char_interval: None,
            custom_char_end: Some(char_end),
        }
    }

    /// The id of the chunk's document.
    pub fn document_id(&self) -> (r: Option<&str>)
        ensures
            r matches Some(s) ==> (self.doc() matches Some(d) && d.document_id matches Some(id) && s@ == id@),
            r is None ==> !(self.doc() matches Some(d) && d.document_id is Some),
    {
        match &self.document {
            Some(d) => match &d.document_id {
                Some(id) => Some(id.as_str()),
                None => None,
            },
            None => None,
        }
    }

    /// The tokenized text of the chunk's document; documents do not carry
    /// one, so there is none.
    pub fn document_text(&self) -> (r: Option<&TokenizedText>)
        ensures
            r is None,
    {
        None
    }

    /// The additional context of the chunk's document.
    pub fn additional_context(&self) -> (r: Option<&str>)
        ensures
            r matches Some(s) ==> (self.doc() matches Some(d) && d.additional_context matches Some(c) && s@
                == c@),
            r is None ==> !(self.doc() matches Some(d) && d.additional_context is Some),
    {
        match &self.document {
            Some(d) => match &d.additional_context {
                Some(c) => Some(c.as_str()),
                None => None,
            },
            None => None,
        }
    }

    /// The custom end applies: the document has tokens and the chunk's
    /// first token is one of them.
    pub open spec fn uses_custom_end(&self) -> bool {
        &&& self.custom_end() is Some
        &&& self.doc() is Some
        &&& doc_tokens(self.doc()->0).len() > 0
        &&& self.interval().start_index < doc_tokens(self.doc()->0).len()
    }

    /// Where the text of a chunk with a custom end stops: at the custom end,
    /// or at the end of the document when that comes first.
    pub open spec fn custom_text_end(&self) -> int {
        let len = string_bytes(self.doc()->0.text).len();
        if self.custom_end()->0 <= len { self.custom_end()->0 as int } else { len as int }
    }

    /// Where the text of a chunk with a custom end starts: at its first token.
    pub open spec fn custom_text_start(&self) -> int {
        doc_tokens(self.doc()->0)[self.interval().start_index as int].char_interval.start_pos as int
    }

    /// The custom end can be read: it lies on a character boundary at or
    /// after the start of the chunk's first token.
    pub open spec fn custom_end_readable(&self) -> bool {
        self.uses_custom_end() ==> self.custom_text_start() <= self.custom_text_end() && is_char_boundary(
            string_bytes(self.doc()->0.text),
            self.custom_text_end(),
        )
    }

    /// What reading the chunk's text gives: the remembered text when there
    /// is one; an error without a document; the text from the first token
    /// to the custom end when that applies; else the text of its tokens.
    pub open spec fn chunk_text_result(&self, r: LangExtractResult<String>) -> bool {
        if self.cached_text() is Some {
            r == Ok::<String, LangExtractError>(self.cached_text()->0)
        } else if self.doc() is None {
            r matches Err(LangExtractError::InvalidInput(m)) && m@ == "Document text must be set to access chunk text"@
        } else if self.uses_custom_end() {
            r matches Ok(s) && string_bytes(s) == string_bytes(self.doc()->0.text).subrange(
                self.custom_text_start(),
                self.custom_text_end(),
            )
        } else {
            tokens_text_outcome(string_bytes(self.doc()->0.text), doc_tokens(self.doc()->0), self.interval(), r)
        }
    }

    /// The chunk's text: from its first token to the custom end when it has
    /// one, else the text of its tokens; an error without a document.
    pub fn chunk_text(&self, tokenizer: &Tokenizer) -> (r: LangExtractResult<String>)
        requires
            self.custom_end_readable(),
        ensures
            self.chunk_text_result(r),
    {
        if let Some(cached) = &self.chunk_text {
            return Ok(cached.clone());
        }
        match &self.document {
            Some(document) => {
                let tokenized = match tokenizer.tokenize(document.text.as_str()) {
                    Ok(t) => t,
                    Err(e) => return Err(e),
                };
                if let Some(custom_end) = self.custom_char_end {
                    if tokenized.tokens.len() > 0 && self.token_interval.start_index < tokenized.tokens.len() {
                        let start_char = tokenized.tokens[self.token_interval.start_index].char_interval.start_pos;
                        let len = byte_len(document.text.as_str());
                        let end_char = if custom_end <= len { custom_end } else { len };
                        proof {
                            lemma_tokens_in_text_start(string_bytes(document.text), tokenized.tokens@,
                                self.token_interval.start_index as int);
                        }
                        let piece = substr(document.text.as_str(), start_char, end_char);
                        return Ok(piece.to_string());
                    }
                }
                proof {
                    crate::tokenizer::lemma_ordered_sliceable(string_bytes(document.text), tokenized.tokens@, self.token_interval);
                }
                tokenizer.tokens_text(&tokenized, &self.token_interval)
            },
            None => Err(LangExtractError::invalid_input("Document text must be set to access chunk text")),
        }
    }

    /// Whether the custom end can be read: see
    /// [`TokenChunk::custom_end_readable`].
    pub fn custom_end_readable_now(&self, tokenizer: &Tokenizer) -> (b: bool)
        ensures
            b == self.custom_end_readable(),
    {
        match (&self.document, self.custom_char_end) {
            (Some(document), Some(custom_end)) => {
                let tokenized = match tokenizer.tokenize(document.text.as_str()) {
                    Ok(t) => t,
                    Err(_) => {
                        return true;
                    },
                };
                if tokenized.tokens.len() > 0 && self.token_interval.start_index < tokenized.tokens.len() {
                    let start_char = tokenized.tokens[self.token_interval.start_index].char_interval.start_pos;
                    let len = byte_len(document.text.as_str());
                    let end_char = if custom_end <= len { custom_end } else { len };
                    start_char <= end_char && boundary_at(document.text.as_str(), end_char)
                } else {
                    true
                }
            },
            _ => true,
        }
    }

    /// The chunk's text with whitespace tidied: see [`sanitize_text`].
    pub fn sanitized_chunk_text(&self, tokenizer: &Tokenizer) -> (r: LangExtractResult<String>)
        requires
            self.custom_end_readable(),
        ensures
            exists|t: LangExtractResult<String>| {
                &&& self.chunk_text_result(t)
                &&& t matches Ok(s) ==> sanitized(s@, r)
                &&& t matches Err(e) ==> r == Err::<String, LangExtractError>(e)
            },
    {
        let text = match self.chunk_text(tokenizer) {
            Ok(t) => t,
            Err(e) => return Err(e),
        };
        sanitize_text(text.as_str())
    }

    /// The bytes of the document the chunk's tokens span: the remembered
    /// span when there is one; an error without a document or when the
    /// tokens are not in it.
    pub fn char_interval(&self, tokenizer: &Tokenizer) -> (r: LangExtractResult<CharInterval>)
        requires
            self.cached_interval() is None && self.doc() is Some && self.interval().start_index < doc_tokens(
                self.doc()->0,
            ).len() ==> self.interval().end_index > 0,
        ensures
            self.cached_interval() is Some ==> r == Ok::<CharInterval, LangExtractError>(self.cached_interval()->0),
            self.cached_interval() is None && self.doc() is None ==> (r matches Err(LangExtractError::InvalidInput(m))
                && m@ == "Document text must be set to compute char interval"@),
            self.cached_interval() is None && self.doc() is Some ==> {
                let toks = doc_tokens(self.doc()->0);
                let iv = self.interval();
                if iv.start_index >= toks.len() || iv.end_index > toks.len() {
                    r matches Err(LangExtractError::InvalidInput(m)) && m@
                        == "Token interval is out of bounds for the document"@
                } else {
                    r == Ok::<CharInterval, LangExtractError>(
                        CharInterval {
                            start_pos: Some(toks[iv.start_index as int].char_interval.start_pos),
                            end_pos: Some(toks[iv.end_index - 1].char_interval.end_pos),
                        },
                    )
                }
            },
    {
        if let Some(cached) = &self.char_interval {
            return Ok(*cached);
        }
        match &self.document {
            Some(document) => {
                let tokenized = match tokenizer.tokenize(document.text.as_str()) {
                    Ok(t) => t,
                    Err(e) => return Err(e),
                };
                let tokens = &tokenized.tokens;
                if self.token_interval.start_index >= tokens.len() || self.token_interval.end_index > tokens.len() {
                    return Err(LangExtractError::invalid_input("Token interval is out of bounds for the document"));
                }
                let start_token = &tokens[self.token_interval.start_index];
                let end_token = &tokens[self.token_interval.end_index - 1];
                Ok(CharInterval {
                    start_pos: Some(start_token.char_interval.start_pos),
                    end_pos: Some(end_token.char_interval.end_pos),
                })
            },
            None => Err(LangExtractError::invalid_input("Document text must be set to compute char interval")),
        }
    }
}

/// What tidying `input` gives: the text without leading and trailing
/// whitespace and with each inner run of whitespace made one space, or an
/// error when nothing is left.
pub open spec fn sanitized(input: Seq<char>, r: LangExtractResult<String>) -> bool {
    let t = squeeze_ws(trim_ws(input));
    if t.len() == 0 {
        r matches Err(LangExtractError::InvalidInput(m)) && m@ == "Sanitized text is empty"@
    } else {
        r matches Ok(s) && s@ == t
    }
}

/// Trims the text and replaces every run of whitespace in it by one space;
/// an error when nothing is left.
pub fn sanitize_text(text: &str) -> (r: LangExtractResult<String>)
    ensures
        sanitized(text@, r),
{
    let sanitized = squeeze_trim(text);
    if sanitized.as_str().is_empty() {
        return Err(LangExtractError::invalid_input("Sanitized text is empty"));
    }
    Ok(sanitized)
}

/// A token's start lies on a character boundary within the text.
proof fn lemma_tokens_in_text_start(b: Seq<u8>, toks: Seq<Token>, k: int)
    requires
        tokens_ordered(b, toks),
        0 <= k < toks.len(),
    ensures
        toks[k].char_interval.start_pos <= b.len(),
        is_char_boundary(b, toks[k].char_interval.start_pos as int),
{
    assert(crate::tokenizer::tokens_in_text(b, toks));
    let t = toks[k];
}


// ---------------------------------------------------------------------------
// Chunking a tokenized text.

/// The bytes from the start of token `s` to the end of token `t - 1` are
/// more than `max`.
pub open spec fn span_exceeds(toks: Seq<Token>, max: nat, s: int, t: int) -> bool {
    toks[t - 1].char_interval.end_pos - toks[s].char_interval.start_pos > max
}

/// Growing the chunk that starts at token `p` token by token through the
/// sentence that ends before token `e`, from token `ti` on, where `nl` is the
/// last token seen that follows a line break (`p` when none has been seen).
/// Gives where the chunk ends and whether the sentence had to be broken:
/// at the first token that does not fit, the chunk ends before the last
/// line break when there is one after `p`, else before that token.
pub open spec fn grow_within_sentence(toks: Seq<Token>, max: nat, p: int, e: int, ti: int, nl: int) -> (int, bool)
    decreases e - ti,
{
    if ti >= e {
        (e, false)
    } else {
        let nl2 = if toks[ti].first_token_after_newline { ti } else { nl };
        if span_exceeds(toks, max, p, ti + 1) {
            (if nl2 > p { nl2 } else if ti > p { ti } else { p + 1 }, true)
        } else {
            grow_within_sentence(toks, max, p, e, ti + 1, nl2)
        }
    }
}

/// Adding whole sentences, from token `q` on, to the chunk that starts at
/// token `p`, for as long as they fit; gives where the chunk ends.
pub open spec fn extend_with_sentences(b: Seq<u8>, toks: Seq<Token>, max: nat, p: int, q: int) -> int
    decreases toks.len() - q,
{
    if q < 0 || q >= toks.len() {
        q
    } else {
        let e2 = sentence_end_from(b, toks, q);
        if e2 <= q || e2 > toks.len() || span_exceeds(toks, max, p, e2) {
            q
        } else {
            extend_with_sentences(b, toks, max, p, e2)
        }
    }
}

/// The chunk that starts at token `p` when the previous chunk did (or did
/// not) break a sentence: where it ends, and whether it breaks a sentence.
///
/// A first token that alone does not fit is a chunk of its own. Otherwise
/// the chunk grows through the sentence; when the sentence does not fit it
/// is broken. When it fits and the previous chunk broke a sentence, the
/// chunk ends with this sentence; else whole sentences are added while
/// they fit.
pub open spec fn next_chunk(b: Seq<u8>, toks: Seq<Token>, max: nat, p: int, broken: bool) -> (int, bool) {
    let e = sentence_end_from(b, toks, p);
    if span_exceeds(toks, max, p, p + 1) {
        (p + 1, p + 1 < e)
    } else {
        let g = grow_within_sentence(toks, max, p, e, p, p);
        if g.1 {
            (g.0, true)
        } else if broken {
            (e, false)
        } else {
            (extend_with_sentences(b, toks, max, p, e), false)
        }
    }
}

/// The token spans of all chunks from token `p` on.
pub open spec fn chunks_from(b: Seq<u8>, toks: Seq<Token>, max: nat, p: int, broken: bool) -> Seq<TokenInterval>
    decreases toks.len() - p,
{
    if p < 0 || p >= toks.len() {
        seq![]
    } else {
        let c = next_chunk(b, toks, max, p, broken);
        if c.0 <= p || c.0 > toks.len() {
            seq![]
        } else {
            seq![TokenInterval { start_index: p as usize, end_index: c.0 as usize }] + chunks_from(
                b,
                toks,
                max,
                c.0,
                c.1,
            )
        }
    }
}

/// In tokens that are in order, a later token ends no earlier than an
/// earlier one, and a token ends no earlier than any token before it starts.
pub proof fn lemma_token_ends_ordered(b: Seq<u8>, toks: Seq<Token>, s: int, a: int, c: int)
    requires
        tokens_ordered(b, toks),
        0 <= s < a <= c <= toks.len(),
    ensures
        toks[a - 1].char_interval.end_pos <= toks[c - 1].char_interval.end_pos,
        toks[s].char_interval.start_pos <= toks[a - 1].char_interval.end_pos,
{
    let ta = toks[a - 1];
    let tc = toks[c - 1];
    let ts = toks[s];
    if a < c {
        assert(ta.char_interval.end_pos <= tc.char_interval.start_pos);
    }
    if s < a - 1 {
        assert(ts.char_interval.end_pos <= ta.char_interval.start_pos);
    }
}

proof fn lemma_grow(b: Seq<u8>, toks: Seq<Token>, max: nat, p: int, e: int, ti: int, nl: int)
    requires
        tokens_ordered(b, toks),
        0 <= p < e <= toks.len(),
        p <= ti <= e,
        p <= nl,
        nl < ti || nl == p,
        !span_exceeds(toks, max, p, p + 1),
        ti > p ==> !span_exceeds(toks, max, p, ti),
    ensures
        ({
            let g = grow_within_sentence(toks, max, p, e, ti, nl);
            &&& p < g.0 <= e
            &&& !g.1 ==> g.0 == e
            &&& !span_exceeds(toks, max, p, g.0)
        }),
    decreases e - ti,
{
    if ti < e {
        let nl2 = if toks[ti].first_token_after_newline { ti } else { nl };
        if span_exceeds(toks, max, p, ti + 1) {
            let r = if nl2 > p { nl2 } else if ti > p { ti } else { p + 1 };
            if ti > p {
                lemma_token_ends_ordered(b, toks, p, r, ti);
            }
        } else {
            lemma_grow(b, toks, max, p, e, ti + 1, nl2);
        }
    }
}

proof fn lemma_extend(b: Seq<u8>, toks: Seq<Token>, max: nat, p: int, q: int)
    requires
        0 <= p < q <= toks.len(),
        !span_exceeds(toks, max, p, q),
    ensures
        q <= extend_with_sentences(b, toks, max, p, q) <= toks.len(),
        !span_exceeds(toks, max, p, extend_with_sentences(b, toks, max, p, q)),
    decreases toks.len() - q,
{
    if q < toks.len() {
        let e2 = sentence_end_from(b, toks, q);
        if !(e2 <= q || e2 > toks.len() || span_exceeds(toks, max, p, e2)) {
            lemma_extend(b, toks, max, p, e2);
        }
    }
}

/// A chunk starting at a token of the text ends after that token and
/// within the text, and a chunk of more than one token fits the buffer.
pub proof fn lemma_next_chunk(b: Seq<u8>, toks: Seq<Token>, max: nat, p: int, broken: bool)
    requires
        tokens_ordered(b, toks),
        0 <= p < toks.len(),
    ensures
        p < next_chunk(b, toks, max, p, broken).0 <= toks.len(),
        next_chunk(b, toks, max, p, broken).0 > p + 1 ==> !span_exceeds(
            toks,
            max,
            p,
            next_chunk(b, toks, max, p, broken).0,
        ),
{
    lemma_sentence_end_bounds(b, toks, p);
    let e = sentence_end_from(b, toks, p);
    if !span_exceeds(toks, max, p, p + 1) {
        lemma_grow(b, toks, max, p, e, p, p);
        let g = grow_within_sentence(toks, max, p, e, p, p);
        if !g.1 && !broken {
            lemma_extend(b, toks, max, p, e);
        }
    }
}

/// Chunking covers the tokens from `p` to the end in order: the first chunk
/// starts at `p`, each chunk starts where the one before it ends, the last
/// ends at the last token, no chunk is empty, and a chunk that does not fit
/// the buffer is a single token.
pub proof fn lemma_chunks_partition(b: Seq<u8>, toks: Seq<Token>, max: nat, p: int, broken: bool)
    requires
        tokens_ordered(b, toks),
        0 <= p <= toks.len() <= usize::MAX,
    ensures
        ({
            let cs = chunks_from(b, toks, max, p, broken);
            &&& (cs.len() == 0 <==> p == toks.len())
            &&& cs.len() > 0 ==> cs[0].start_index == p && cs.last().end_index == toks.len()
            &&& forall|k: int| 0 <= k < cs.len() - 1 ==> (#[trigger] cs[k]).end_index == cs[k + 1].start_index
            &&& forall|k: int| 0 <= k < cs.len() ==> (#[trigger] cs[k]).start_index < cs[k].end_index
            &&& forall|k: int| 0 <= k < cs.len() ==> (#[trigger] cs[k]).end_index <= toks.len()
            &&& forall|k: int|
                0 <= k < cs.len() && (#[trigger] cs[k]).end_index > cs[k].start_index + 1 ==> !span_exceeds(
                    toks,
                    max,
                    cs[k].start_index as int,
                    cs[k].end_index as int,
                )
        }),
    decreases toks.len() - p,
{
    if p < toks.len() {
        lemma_next_chunk(b, toks, max, p, broken);
        let c = next_chunk(b, toks, max, p, broken);
        lemma_chunks_partition(b, toks, max, c.0, c.1);
        let rest = chunks_from(b, toks, max, c.0, c.1);
        let cs = chunks_from(b, toks, max, p, broken);
        let head = TokenInterval { start_index: p as usize, end_index: c.0 as usize };
        assert(cs == seq![head] + rest);
        assert forall|k: int| 0 <= k < cs.len() - 1 implies (#[trigger] cs[k]).end_index == cs[k + 1].start_index by {
            if k > 0 {
                assert(cs[k] == rest[k - 1]);
                assert(cs[k + 1] == rest[k]);
            }
        }
        assert forall|k: int| 0 <= k < cs.len() implies (#[trigger] cs[k]).start_index < cs[k].end_index && cs[k].end_index
            <= toks.len() by {
            if k > 0 {
                assert(cs[k] == rest[k - 1]);
            }
        }
        assert forall|k: int|
            0 <= k < cs.len() && (#[trigger] cs[k]).end_index > cs[k].start_index + 1 implies !span_exceeds(
            toks,
            max,
            cs[k].start_index as int,
            cs[k].end_index as int,
        ) by {
            if k > 0 {
                assert(cs[k] == rest[k - 1]);
            }
        }
    }
}

/// The document a borrowed document stands for.
pub open spec fn owned_doc(d: Option<&Document>) -> Option<Document> {
    match d {
        Some(x) => Some(*x),
        None => None,
    }
}

fn copy_doc(d: Option<&Document>) -> (r: Option<Document>)
    ensures
        r == owned_doc(d),
{
    match d {
        Some(x) => Some(x.duplicate()),
        None => None,
    }
}

/// Walks a tokenized text chunk by chunk; see [`next_chunk`] for how a
/// chunk is formed.
pub struct ChunkIterator<'a> {
    tokenized_text: &'a TokenizedText,
    tokenizer: &'a Tokenizer,
    max_char_buffer: usize,
    sentence_iter: SentenceIterator<'a>,
    broken_sentence: bool,
    document: Option<&'a Document>,
    next_chunk_start_char: Option<usize>,
}

impl<'a> ChunkIterator<'a> {
    #[verifier::type_invariant]
    closed spec fn inv(&self) -> bool {
        &&& self.sentence_iter.source() == *self.tokenized_text
        &&& self.sentence_iter.position() <= self.tokenized_text.tokens@.len()
        &&& tokens_ordered(encode_utf8(self.tokenized_text.text@), self.tokenized_text.tokens@)
    }

    /// The token the next chunk starts at.
    pub closed spec fn position(&self) -> nat {
        self.sentence_iter.position()
    }

    /// Whether the last chunk broke a sentence.
    pub closed spec fn broken(&self) -> bool {
        self.broken_sentence
    }

    /// The text being chunked.
    pub closed spec fn source(&self) -> TokenizedText {
        *self.tokenized_text
    }

    /// The most bytes a chunk of more than one token may span.
    pub closed spec fn max_buffer(&self) -> nat {
        self.max_char_buffer as nat
    }

    /// The document the chunks are attached to.
    pub closed spec fn doc(&self) -> Option<Document> {
        owned_doc(self.document)
    }

    /// An iterator over the chunks of `text`, from its first token on.
    pub fn new(
        text: &'a TokenizedText,
        tokenizer: &'a Tokenizer,
        max_char_buffer: usize,
        document: Option<&'a Document>,
    ) -> (r: LangExtractResult<Self>)
        requires
            tokens_ordered(encode_utf8(text.text@), text.tokens@),
        ensures
            r matches Ok(it) && it.position() == 0 && !it.broken() && it.source() == *text && it.max_buffer()
                == max_char_buffer && it.doc() == owned_doc(document),
    {
        let sentence_iter = match SentenceIterator::new(text, tokenizer, 0) {
            Ok(it) => it,
            Err(e) => return Err(e),
        };
        Ok(ChunkIterator {
            tokenized_text: text,
            tokenizer,
            max_char_buffer,
            sentence_iter,
            broken_sentence: false,
            document,
            next_chunk_start_char: Some(0),
        })
    }

    /// Whether the tokens of `token_interval` span more bytes than the buffer.
    fn tokens_exceed_buffer(&self, token_interval: &TokenInterval) -> (r: LangExtractResult<bool>)
        requires
            token_interval.start_index < token_interval.end_index <= self.source().tokens@.len(),
        ensures
            r == Ok::<bool, LangExtractError>(
                span_exceeds(
                    self.source().tokens@,
                    self.max_buffer(),
                    token_interval.start_index as int,
                    token_interval.end_index as int,
                ),
            ),
    {
        proof {
            use_type_invariant(self);
            lemma_token_ends_ordered(
                encode_utf8(self.tokenized_text.text@),
                self.tokenized_text.tokens@,
                token_interval.start_index as int,
                token_interval.end_index as int,
                token_interval.end_index as int,
            );
        }
        let char_interval = match self.get_char_interval_for_tokens(token_interval) {
            Ok(c) => c,
            Err(e) => return Err(e),
        };
        match (char_interval.start_pos, char_interval.end_pos) {
            (Some(start), Some(end)) => Ok((end - start) > self.max_char_buffer),
            _ => Ok(false),
        }
    }

    /// The bytes of the text the tokens of `token_interval` span; an error
    /// when the tokens are not in the text.
    fn get_char_interval_for_tokens(&self, token_interval: &TokenInterval) -> (r: LangExtractResult<CharInterval>)
        requires
            token_interval.start_index < token_interval.end_index,
        ensures
            ({
                let toks = self.source().tokens@;
                if token_interval.start_index >= toks.len() || token_interval.end_index > toks.len() {
                    r matches Err(LangExtractError::InvalidInput(m)) && m@ == "Token interval is out of bounds"@
                } else {
                    r == Ok::<CharInterval, LangExtractError>(
                        CharInterval {
                            start_pos: Some(toks[token_interval.start_index as int].char_interval.start_pos),
                            end_pos: Some(toks[token_interval.end_index - 1].char_interval.end_pos),
                        },
                    )
                }
            }),
    {
        let n = self.tokenized_text.tokens.len();
        if token_interval.start_index >= n || token_interval.end_index > n {
            return Err(LangExtractError::invalid_input("Token interval is out of bounds"));
        }
        let start_token = &self.tokenized_text.tokens[token_interval.start_index];
        let end_token = &self.tokenized_text.tokens[token_interval.end_index - 1];
        Ok(CharInterval { start_pos: Some(start_token.char_interval.start_pos), end_pos: Some(end_token.char_interval.end_pos) })
    }

    /// The next chunk, as [`next_chunk`] forms it from the current
    /// position; `None` once every token is in a chunk.
    pub fn next(&mut self) -> (r: Option<LangExtractResult<TokenChunk>>)
        ensures
            final(self).source() == old(self).source(),
            final(self).max_buffer() == old(self).max_buffer(),
            final(self).doc() == old(self).doc(),
            old(self).position() >= old(self).source().tokens@.len() ==> r is None && final(self).position()
                == old(self).position() && final(self).broken() == old(self).broken(),
            old(self).position() < old(self).source().tokens@.len() ==> {
                let c = next_chunk(
                    encode_utf8(old(self).source().text@),
                    old(self).source().tokens@,
                    old(self).max_buffer(),
                    old(self).position() as int,
                    old(self).broken(),
                );
                &&& r matches Some(Ok(ch)) && ch.interval() == (TokenInterval {
                    start_index: old(self).position() as usize,
                    end_index: c.0 as usize,
                }) && ch.doc() == old(self).doc() && ch.cached_text() is None && ch.cached_interval() is None
                    && ch.custom_end() is None
                &&& final(self).position() == c.0
                &&& final(self).broken() == c.1
            },
    {
        proof {
            use_type_invariant(&*self);
        }
        let ghost src = *self.tokenized_text;
        let ghost b = encode_utf8(src.text@);
        let ghost toks = src.tokens@;
        let ghost max = self.max_char_buffer as nat;
        let ghost p0 = self.sentence_iter.position() as int;
        let ghost br0 = self.broken_sentence;
        let ghost doc0 = self.document;
        let n = self.tokenized_text.tokens.len();
        proof {
            if p0 < toks.len() {
                lemma_sentence_end_bounds(b, toks, p0);
            }
        }
        let mut sentences = self.sentence_iter;
        let first = sentences.next();
        self.sentence_iter = sentences;
        let sentence = match first {
            Some(Ok(sentence)) => sentence,
            Some(Err(e)) => return Some(Err(e)),
            None => return None,
        };
        let ghost e = sentence_end_from(b, toks, p0);
        let curr_chunk = match TokenInterval::new(sentence.start_index, sentence.start_index + 1) {
            Ok(interval) => interval,
            Err(e) => return Some(Err(e)),
        };
        match self.tokens_exceed_buffer(&curr_chunk) {
            Ok(true) => {
                match SentenceIterator::new(self.tokenized_text, self.tokenizer, sentence.start_index + 1) {
                    Ok(new_iter) => {
                        self.sentence_iter = new_iter;
                        self.broken_sentence = curr_chunk.end_index < sentence.end_index;
                    },
                    Err(e) => return Some(Err(e)),
                }
                return Some(Ok(TokenChunk::new(curr_chunk, copy_doc(self.document))));
            },
            Ok(false) => {},
            Err(e) => return Some(Err(e)),
        }
        let mut start_of_new_line: Option<usize> = None;
        let mut curr_chunk = curr_chunk;
        let mut token_index = curr_chunk.start_index;
        let end = sentence.end_index;
        while token_index < end
            invariant
                *self.tokenized_text == src,
                src == old(self).source(),
                max == old(self).max_buffer(),
                doc0 == old(self).document,
                p0 == old(self).position(),
                br0 == old(self).broken(),
                n == toks.len(),
                self.sentence_iter.source() == src,
                self.sentence_iter.position() == e,
                self.max_char_buffer == max,
                self.document == doc0,
                self.broken_sentence == br0,
                b == encode_utf8(src.text@),
                toks == src.tokens@,
                tokens_ordered(b, toks),
                0 <= p0 < e <= toks.len(),
                e == sentence_end_from(b, toks, p0),
                end == e,
                p0 <= token_index <= e,
                curr_chunk.start_index == p0,
                curr_chunk.end_index == (if token_index > p0 { token_index as int } else { p0 + 1 }),
                !span_exceeds(toks, max, p0, p0 + 1),
                token_index > p0 ==> !span_exceeds(toks, max, p0, token_index as int),
                start_of_new_line matches Some(x) ==> p0 <= x < token_index,
                grow_within_sentence(toks, max, p0, e, p0, p0) == grow_within_sentence(
                    toks,
                    max,
                    p0,
                    e,
                    token_index as int,
                    match start_of_new_line {
                        Some(x) => x as int,
                        None => p0,
                    },
                ),
            decreases end - token_index,
        {
            let ghost nl_before = match start_of_new_line {
                Some(x) => x as int,
                None => p0,
            };
            if self.tokenized_text.tokens[token_index].first_token_after_newline {
                start_of_new_line = Some(token_index);
            }
            let ghost nl_after = match start_of_new_line {
                Some(x) => x as int,
                None => p0,
            };
            assert(nl_after == (if toks[token_index as int].first_token_after_newline { token_index as int } else { nl_before }));
            let test_chunk = match TokenInterval::new(curr_chunk.start_index, token_index + 1) {
                Ok(interval) => interval,
                Err(e) => return Some(Err(e)),
            };
            match self.tokens_exceed_buffer(&test_chunk) {
                Ok(true) => {
                    let ghost brk = if nl_after > p0 { nl_after } else if token_index > p0 { token_index as int } else { p0 + 1 };
                    proof {
                        assert(grow_within_sentence(toks, max, p0, e, token_index as int, nl_before) == (brk, true));
                        assert(next_chunk(b, toks, max, p0, br0) == (brk, true));
                    }
                    if let Some(newline_pos) = start_of_new_line {
                        if newline_pos > curr_chunk.start_index {
                            curr_chunk = match TokenInterval::new(curr_chunk.start_index, newline_pos) {
                                Ok(interval) => interval,
                                Err(e) => return Some(Err(e)),
                            };
                        }
                    }
                    assert(curr_chunk.end_index == brk);
                    match SentenceIterator::new(self.tokenized_text, self.tokenizer, curr_chunk.end_index) {
                        Ok(new_iter) => {
                            self.sentence_iter = new_iter;
                            self.broken_sentence = true;
                        },
                        Err(e) => return Some(Err(e)),
                    }
                    return Some(Ok(TokenChunk::new(curr_chunk, copy_doc(self.document))));
                },
                Ok(false) => {
                    proof {
                        assert(grow_within_sentence(toks, max, p0, e, token_index as int, nl_before)
                            == grow_within_sentence(toks, max, p0, e, token_index + 1, nl_after));
                    }
                    curr_chunk = test_chunk;
                },
                Err(e) => return Some(Err(e)),
            }
            token_index = token_index + 1;
        }
        if self.broken_sentence {
            self.broken_sentence = false;
        } else {
            loop
                invariant
                    *self.tokenized_text == src,
                    src == old(self).source(),
                    max == old(self).max_buffer(),
                    doc0 == old(self).document,
                    p0 == old(self).position(),
                    br0 == old(self).broken(),
                    n == toks.len(),
                    self.sentence_iter.source() == src,
                    self.max_char_buffer == max,
                    self.document == doc0,
                    !self.broken_sentence,
                    !br0,
                    b == encode_utf8(src.text@),
                    toks == src.tokens@,
                    tokens_ordered(b, toks),
                    0 <= p0 < e <= toks.len(),
                    e == sentence_end_from(b, toks, p0),
                    !span_exceeds(toks, max, p0, p0 + 1),
                    !grow_within_sentence(toks, max, p0, e, p0, p0).1,
                    curr_chunk.start_index == p0,
                    curr_chunk.end_index == self.sentence_iter.position(),
                    p0 < curr_chunk.end_index <= toks.len(),
                    !span_exceeds(toks, max, p0, curr_chunk.end_index as int),
                    extend_with_sentences(b, toks, max, p0, e) == extend_with_sentences(
                        b,
                        toks,
                        max,
                        p0,
                        curr_chunk.end_index as int,
                    ),
                ensures
                    *self.tokenized_text == src,
                    self.sentence_iter.source() == src,
                    self.max_char_buffer == max,
                    self.document == doc0,
                    !self.broken_sentence,
                    curr_chunk.start_index == p0,
                    curr_chunk.end_index == self.sentence_iter.position(),
                    extend_with_sentences(b, toks, max, p0, e) == curr_chunk.end_index,
                decreases toks.len() - self.sentence_iter.position(),
            {
                proof {
                    if curr_chunk.end_index < toks.len() {
                        lemma_sentence_end_bounds(b, toks, curr_chunk.end_index as int);
                    }
                }
                let mut sentences = self.sentence_iter;
                let following = sentences.next();
                self.sentence_iter = sentences;
                let next_sentence = match following {
                    None => break,
                    Some(Ok(sentence)) => sentence,
                    Some(Err(e)) => return Some(Err(e)),
                };
                let test_chunk = match TokenInterval::new(curr_chunk.start_index, next_sentence.end_index) {
                    Ok(interval) => interval,
                    Err(e) => return Some(Err(e)),
                };
                match self.tokens_exceed_buffer(&test_chunk) {
                    Ok(true) => {
                        match SentenceIterator::new(self.tokenized_text, self.tokenizer, curr_chunk.end_index) {
                            Ok(new_iter) => {
                                self.sentence_iter = new_iter;
                            },
                            Err(e) => return Some(Err(e)),
                        }
                        break;
                    },
                    Ok(false) => {
                        curr_chunk = test_chunk;
                    },
                    Err(e) => return Some(Err(e)),
                }
            }
        }
        Some(Ok(TokenChunk::new(curr_chunk, copy_doc(self.document))))
    }

    /// All remaining chunks, in order.
    pub fn collect_all(&mut self) -> (r: LangExtractResult<Vec<TokenChunk>>)
        ensures
            final(self).source() == old(self).source(),
            r matches Ok(v) && {
                let cs = chunks_from(
                    encode_utf8(old(self).source().text@),
                    old(self).source().tokens@,
                    old(self).max_buffer(),
                    old(self).position() as int,
                    old(self).broken(),
                );
                &&& v@.len() == cs.len()
                &&& forall|k: int| 0 <= k < v@.len() ==> {
                    &&& (#[trigger] v@[k]).interval() == cs[k]
                    &&& v@[k].doc() == old(self).doc()
                    &&& v@[k].cached_text() is None
                    &&& v@[k].cached_interval() is None
                    &&& v@[k].custom_end() is None
                }
            },
    {
        proof {
            use_type_invariant(&*self);
        }
        let ghost b = encode_utf8(self.source().text@);
        let ghost toks = self.source().tokens@;
        let ghost max = self.max_buffer();
        let ghost all = chunks_from(b, toks, max, self.position() as int, self.broken());
        let mut out: Vec<TokenChunk> = Vec::new();
        loop
            invariant
                self.source() == old(self).source(),
                self.max_buffer() == max,
                max == old(self).max_buffer(),
                self.doc() == old(self).doc(),
                b == encode_utf8(self.source().text@),
                toks == self.source().tokens@,
                tokens_ordered(b, toks),
                self.position() <= toks.len(),
                all == chunks_from(b, toks, max, old(self).position() as int, old(self).broken()),
                out@.len() + chunks_from(b, toks, max, self.position() as int, self.broken()).len() == all.len(),
                forall|k: int| 0 <= k < out@.len() ==> {
                    &&& (#[trigger] out@[k]).interval() == all[k]
                    &&& out@[k].doc() == old(self).doc()
                    &&& out@[k].cached_text() is None
                    &&& out@[k].cached_interval() is None
                    &&& out@[k].custom_end() is None
                },
                forall|j: int| 0 <= j < chunks_from(b, toks, max, self.position() as int, self.broken()).len()
                    ==> #[trigger] chunks_from(b, toks, max, self.position() as int, self.broken())[j] == all[out@.len() + j],
            decreases toks.len() - self.position(),
        {
            proof {
                use_type_invariant(&*self);
                if self.position() < toks.len() {
                    lemma_next_chunk(b, toks, max, self.position() as int, self.broken());
                }
            }
            let ghost before = chunks_from(b, toks, max, self.position() as int, self.broken());
            match self.next() {
                None => {
                    proof {
                        assert(before.len() == 0);
                        assert(out@.len() == all.len());
                    }
                    return Ok(out);
                },
                Some(Ok(chunk)) => {
                    let ghost after = chunks_from(b, toks, max, self.position() as int, self.broken());
                    proof {
                        assert(before == seq![chunk.interval()] + after);
                        assert(before[0] == chunk.interval());
                        assert forall|j: int| 0 <= j < after.len() implies #[trigger] after[j] == all[out@.len() + 1 + j] by {
                            assert(after[j] == before[j + 1]);
                        }
                    }
                    out.push(chunk);
                },
                Some(Err(e)) => {
                    return Err(e);
                },
            }
        }
    }

    /// A chunk of `token_interval` whose text runs up to the start of the
    /// token `next_chunk_start_token`, taking in the whitespace between
    /// them; without a next token in the text, a plain chunk.
    fn create_adjacent_chunk(&self, token_interval: TokenInterval, next_chunk_start_token: Option<usize>) -> (c: TokenChunk)
        ensures
            c.interval() == token_interval,
            c.doc() == self.doc(),
            c.cached_text() is None,
            c.cached_interval() is None,
            c.custom_end() == (match next_chunk_start_token {
                Some(ns) => if ns < self.source().tokens@.len() {
                    Some(self.source().tokens@[ns as int].char_interval.start_pos)
                } else {
                    None
                },
                None => None,
            }),
    {
        if let Some(next_start) = next_chunk_start_token {
            if next_start < self.tokenized_text.tokens.len() {
                let next_token = &self.tokenized_text.tokens[next_start];
                let custom_end = next_token.char_interval.start_pos;
                return TokenChunk::with_char_end(token_interval, copy_doc(self.document), custom_end);
            }
        }
        TokenChunk::new(token_interval, copy_doc(self.document))
    }
}


// ---------------------------------------------------------------------------
// Sentence and paragraph breaks in raw text.

/// A byte that ends a sentence: `.`, `!` or `?`.
pub open spec fn is_terminal(c: u8) -> bool {
    c == 46 || c == 33 || c == 63
}

/// Where the run of sentence-ending bytes starting at `i` ends.
pub open spec fn terminal_run_end(b: Seq<u8>, i: int) -> int
    decreases b.len() - i,
{
    if 0 <= i < b.len() && is_terminal(b[i]) { terminal_run_end(b, i + 1) } else { i }
}

/// The end of a sentence break starting at `i` (one or more of `.`, `!`,
/// `?` followed by whitespace), or `i` when none starts there.
pub open spec fn sentence_break_end(b: Seq<u8>, i: int) -> int {
    if 0 <= i < b.len() && is_terminal(b[i]) {
        let j = terminal_run_end(b, i);
        let k = skip_ws(b, j);
        if k > j { k } else { i }
    } else {
        i
    }
}

/// One past the last newline between `lo` and `hi`, or `lo` when there is none.
pub open spec fn last_newline_end(b: Seq<u8>, lo: int, hi: int) -> int
    decreases hi - lo,
{
    if hi <= lo {
        lo
    } else if b[hi - 1] == 10 {
        hi
    } else {
        last_newline_end(b, lo, hi - 1)
    }
}

/// The end of a paragraph break starting at `i` (a newline, whitespace, and
/// a newline), or `i` when none starts there.
pub open spec fn paragraph_break_end(b: Seq<u8>, i: int) -> int {
    if 0 <= i < b.len() && b[i] == 10 {
        let m = last_newline_end(b, i + 1, skip_ws(b, i + 1));
        if m > i + 1 { m } else { i }
    } else {
        i
    }
}

/// The ends of the breaks found scanning from `i`, each search resuming where
/// the last break ended; `paragraphs` picks paragraph breaks over sentence
/// breaks.
pub open spec fn break_ends(b: Seq<u8>, paragraphs: bool, i: int) -> Seq<int>
    decreases b.len() - i,
{
    if i < 0 || i >= b.len() {
        seq![]
    } else {
        let m = if paragraphs { paragraph_break_end(b, i) } else { sentence_break_end(b, i) };
        if i < m <= b.len() {
            seq![m] + break_ends(b, paragraphs, m)
        } else {
            break_ends(b, paragraphs, i + 1)
        }
    }
}

/// The cut positions of a text: its start, the end of every break, and its
/// end unless the last break ends there.
pub open spec fn cut_positions(b: Seq<u8>, paragraphs: bool) -> Seq<int> {
    let ends = break_ends(b, paragraphs, 0);
    let last = if ends.len() > 0 { ends.last() } else { 0 };
    seq![0int] + ends + if last != b.len() { seq![b.len() as int] } else { seq![] }
}

/// Cut positions start at 0, rise strictly, stay within the text and lie on
/// character boundaries.
pub open spec fn cuts_well_placed(b: Seq<u8>, cuts: Seq<int>) -> bool {
    &&& cuts.len() >= 1
    &&& cuts[0] == 0
    &&& forall|k: int| 0 <= k < cuts.len() ==> 0 <= #[trigger] cuts[k] <= b.len()
    &&& forall|k: int| 0 <= k < cuts.len() ==> is_char_boundary(b, #[trigger] cuts[k])
    &&& forall|k: int| 0 < k < cuts.len() ==> cuts[k - 1] < #[trigger] cuts[k]
}

proof fn lemma_terminal_run(b: Seq<u8>, i: int)
    requires
        0 <= i <= b.len(),
    ensures
        i <= terminal_run_end(b, i) <= b.len(),
        forall|k: int| i <= k < terminal_run_end(b, i) ==> is_terminal(#[trigger] b[k]),
    decreases b.len() - i,
{
    if i < b.len() && is_terminal(b[i]) {
        lemma_terminal_run(b, i + 1);
    }
}

proof fn lemma_last_newline(b: Seq<u8>, lo: int, hi: int)
    requires
        0 <= lo <= hi <= b.len(),
    ensures
        lo <= last_newline_end(b, lo, hi) <= hi,
        last_newline_end(b, lo, hi) > lo ==> b[last_newline_end(b, lo, hi) - 1] == 10,
    decreases hi - lo,
{
    if hi > lo && b[hi - 1] != 10 {
        lemma_last_newline(b, lo, hi - 1);
    }
}

/// A break ends after where it starts, within the text, on a character
/// boundary.
proof fn lemma_break_end(b: Seq<u8>, paragraphs: bool, i: int)
    requires
        valid_utf8(b),
        0 <= i < b.len(),
    ensures
        ({
            let m = if paragraphs { paragraph_break_end(b, i) } else { sentence_break_end(b, i) };
            &&& i <= m <= b.len()
            &&& m > i ==> is_char_boundary(b, m)
        }),
{
    if paragraphs {
        if b[i] == 10 {
            lemma_boundary_after_ascii(b, i + 1);
            lemma_skip_ws_bounds(b, i + 1);
            lemma_last_newline(b, i + 1, skip_ws(b, i + 1));
            let m = last_newline_end(b, i + 1, skip_ws(b, i + 1));
            if m > i + 1 {
                lemma_boundary_after_ascii(b, m);
            }
        }
    } else {
        if is_terminal(b[i]) {
            lemma_terminal_run(b, i + 1);
            let j = terminal_run_end(b, i);
            assert(j == terminal_run_end(b, i + 1));
            assert(is_terminal(b[j - 1]));
            lemma_boundary_after_ascii(b, j);
            lemma_skip_ws_bounds(b, j);
            lemma_skip_ws_boundary(b, j);
        }
    }
}

proof fn lemma_break_ends(b: Seq<u8>, paragraphs: bool, i: int)
    requires
        valid_utf8(b),
        0 <= i <= b.len(),
    ensures
        ({
            let ends = break_ends(b, paragraphs, i);
            &&& forall|k: int| 0 <= k < ends.len() ==> i < #[trigger] ends[k] <= b.len()
            &&& forall|k: int| 0 <= k < ends.len() ==> is_char_boundary(b, #[trigger] ends[k])
            &&& forall|k: int| 0 < k < ends.len() ==> ends[k - 1] < #[trigger] ends[k]
        }),
    decreases b.len() - i,
{
    if i < b.len() {
        lemma_break_end(b, paragraphs, i);
        let m = if paragraphs { paragraph_break_end(b, i) } else { sentence_break_end(b, i) };
        if i < m <= b.len() {
            lemma_break_ends(b, paragraphs, m);
            let rest = break_ends(b, paragraphs, m);
            let ends = break_ends(b, paragraphs, i);
            assert(ends == seq![m] + rest);
            assert forall|k: int| 0 < k < ends.len() implies ends[k - 1] < #[trigger] ends[k] by {
                if k > 1 {
                    assert(ends[k - 1] == rest[k - 2]);
                }
                assert(ends[k] == rest[k - 1]);
            }
            assert forall|k: int| 0 <= k < ends.len() implies i < #[trigger] ends[k] <= b.len() && is_char_boundary(
                b,
                ends[k],
            ) by {
                if k > 0 {
                    assert(ends[k] == rest[k - 1]);
                }
            }
        } else {
            lemma_break_ends(b, paragraphs, i + 1);
            assert(break_ends(b, paragraphs, i) == break_ends(b, paragraphs, i + 1));
        }
    }
}

fn is_terminal_byte(c: u8) -> (r: bool)
    ensures
        r == is_terminal(c),
{
    c == 46 || c == 33 || c == 63
}

fn sentence_break_end_at(b: &[u8], i: usize) -> (m: usize)
    requires
        i < b@.len(),
    ensures
        m == sentence_break_end(b@, i as int),
{
    if is_terminal_byte(b[i]) {
        let mut j = i;
        while j < b.len() && is_terminal_byte(b[j])
            invariant
                i <= j <= b@.len(),
                terminal_run_end(b@, i as int) == terminal_run_end(b@, j as int),
            decreases b@.len() - j,
        {
            j = j + 1;
        }
        let k = skip_ws_at(b, j);
        if k > j { k } else { i }
    } else {
        i
    }
}

fn paragraph_break_end_at(b: &[u8], i: usize) -> (m: usize)
    requires
        i < b@.len(),
    ensures
        m == paragraph_break_end(b@, i as int),
{
    if b[i] == 10 {
        proof {
            lemma_skip_ws_bounds(b@, i + 1);
        }
        let r = skip_ws_at(b, i + 1);
        let mut h = r;
        while h > i + 1 && b[h - 1] != 10
            invariant
                i + 1 <= h <= r <= b@.len(),
                last_newline_end(b@, i + 1, r as int) == last_newline_end(b@, i + 1, h as int),
            decreases h,
        {
            h = h - 1;
        }
        if h > i + 1 { h } else { i }
    } else {
        i
    }
}

/// The cut positions of `text` at sentence breaks (`paragraphs` false) or
/// paragraph breaks (`paragraphs` true).
fn find_boundaries(text: &str, paragraphs: bool) -> (v: Vec<usize>)
    ensures
        v@.len() == cut_positions(bytes(text), paragraphs).len(),
        forall|k: int| 0 <= k < v@.len() ==> v@[k] == #[trigger] cut_positions(bytes(text), paragraphs)[k],
        cuts_well_placed(bytes(text), cut_positions(bytes(text), paragraphs)),
{
    let b = text.as_bytes();
    let n = b.len();
    let ghost bs = b@;
    proof {
        lemma_str_valid(text);
        lemma_break_ends(bs, paragraphs, 0);
        is_char_boundary_start_end_of_seq(bs);
    }
    let ghost all = break_ends(bs, paragraphs, 0);
    let mut boundaries: Vec<usize> = Vec::new();
    boundaries.push(0);
    let mut i: usize = 0;
    while i < n
        invariant
            bs == b@,
            n == bs.len(),
            valid_utf8(bs),
            i <= n,
            all == break_ends(bs, paragraphs, 0),
            boundaries@.len() >= 1,
            boundaries@[0] == 0,
            boundaries@.len() - 1 + break_ends(bs, paragraphs, i as int).len() == all.len(),
            forall|k: int| 0 < k < boundaries@.len() ==> boundaries@[k] == #[trigger] all[k - 1],
            forall|k: int| 0 <= k < break_ends(bs, paragraphs, i as int).len()
                ==> #[trigger] break_ends(bs, paragraphs, i as int)[k] == all[boundaries@.len() - 1 + k],
        decreases n - i,
    {
        let m = if paragraphs { paragraph_break_end_at(b, i) } else { sentence_break_end_at(b, i) };
        proof {
            lemma_break_end(bs, paragraphs, i as int);
        }
        let ghost before = break_ends(bs, paragraphs, i as int);
        if m > i {
            proof {
                let after = break_ends(bs, paragraphs, m as int);
                assert(before == seq![m as int] + after);
                assert forall|k: int| 0 <= k < after.len() implies #[trigger] after[k] == all[boundaries@.len() + k] by {
                    assert(after[k] == before[k + 1]);
                }
                assert(before[0] == m);
            }
            boundaries.push(m);
            i = m;
        } else {
            proof {
                assert(before == break_ends(bs, paragraphs, i + 1));
            }
            i = i + 1;
        }
    }
    let ghost ends = all;
    proof {
        assert(break_ends(bs, paragraphs, i as int).len() == 0);
        assert(boundaries@.len() - 1 == ends.len());
    }
    let last = boundaries[boundaries.len() - 1];
    proof {
        if ends.len() > 0 {
            assert(last == ends.last());
        }
    }
    if last != n {
        boundaries.push(n);
    }
    proof {
        let cuts = cut_positions(bs, paragraphs);
        assert forall|k: int| 0 <= k < boundaries@.len() implies boundaries@[k] == #[trigger] cuts[k] by {
            if 0 < k <= ends.len() {
                assert(cuts[k] == ends[k - 1]);
            }
        }
        assert(boundaries@.len() == cuts.len());
        assert forall|k: int| 0 < k < cuts.len() implies cuts[k - 1] < #[trigger] cuts[k] by {
            if k == cuts.len() - 1 && last != n {
                if ends.len() > 0 {
                    assert(cuts[k - 1] == ends.last());
                }
            } else if k >= 2 {
                assert(cuts[k - 1] == ends[k - 2]);
                assert(cuts[k] == ends[k - 1]);
            } else {
                assert(cuts[k] == ends[k - 1]);
            }
        }
        assert forall|k: int| 0 <= k < cuts.len() implies 0 <= #[trigger] cuts[k] <= bs.len() && is_char_boundary(
            bs,
            cuts[k],
        ) by {
            if 0 < k <= ends.len() {
                assert(cuts[k] == ends[k - 1]);
            }
        }
    }
    boundaries
}


// ---------------------------------------------------------------------------
// Chunking raw text.

/// How [`TextChunker`] cuts a text.
#[derive(Debug, Clone, Copy, PartialEq, Eq, Structural)]
pub enum ChunkingStrategy {
    /// Pieces of a fixed size with overlap.
    FixedSize,
    /// Pieces that end at sentence breaks.
    Sentence,
    /// Pieces that end at paragraph breaks.
    Paragraph,
    /// The same as `Semantic`.
    Adaptive,
    /// Pieces cut at the most meaningful separators that keep them within
    /// the size.
    Semantic,
}

/// Settings of [`TextChunker`].
#[derive(Debug, Clone)]
pub struct ChunkingConfig {
    /// The most bytes a chunk may hold.
    pub max_chunk_size: usize,
    /// Bytes shared by consecutive fixed-size chunks.
    pub overlap_size: usize,
    /// How the text is cut.
    pub strategy: ChunkingStrategy,
    /// Pieces between breaks smaller than this are joined with what follows.
    pub min_chunk_size: usize,
    /// Whether paragraph breaks are to be respected.
    pub respect_paragraphs: bool,
    /// Whether sentence breaks are to be respected.
    pub respect_sentences: bool,
    /// Similarity threshold for semantic chunking, in percent.
    pub semantic_similarity_threshold_percent: u32,
    /// The most chunks semantic chunking may produce; the rest are merged
    /// into the last.
    pub semantic_max_chunks: Option<usize>,
}

impl Default for ChunkingConfig {
    fn default() -> (c: Self)
        ensures
            c.max_chunk_size == 2000,
            c.overlap_size == 200,
            c.strategy == ChunkingStrategy::Adaptive,
            c.min_chunk_size == 100,
            c.respect_paragraphs,
            c.respect_sentences,
            c.semantic_similarity_threshold_percent == 70,
            c.semantic_max_chunks is None,
    {
        ChunkingConfig {
            max_chunk_size: 2000,
            overlap_size: 200,
            strategy: ChunkingStrategy::Adaptive,
            min_chunk_size: 100,
            respect_paragraphs: true,
            respect_sentences: true,
            semantic_similarity_threshold_percent: 70,
            semantic_max_chunks: None,
        }
    }
}

/// Where a chunk lies in the text (`.0` to `.1`) and what it shares with
/// its neighbours (`.2`).
pub type ChunkShape = (int, int, Option<(usize, usize)>);

/// Chunk `c`, the `k`th of its text, has shape `sh`: its id is `k`, its text
/// is the bytes of the shape, and it carries the document id `doc`.
pub open spec fn chunk_has_shape(b: Seq<u8>, c: TextChunk, k: int, sh: ChunkShape, doc: Option<String>) -> bool {
    &&& c.id == k
    &&& c.char_offset == sh.0
    &&& 0 <= sh.0 <= sh.1 <= b.len()
    &&& string_bytes(c.text) == b.subrange(sh.0, sh.1)
    &&& c.char_length == sh.1 - sh.0
    &&& c.document_id == doc
    &&& c.overlap_info == sh.2
    &&& c.has_overlap == (sh.2 matches Some((x, y)) && (x > 0 || y > 0))
}

/// The chunks have the shapes, in order.
pub open spec fn chunks_match(b: Seq<u8>, v: Seq<TextChunk>, shapes: Seq<ChunkShape>, doc: Option<String>) -> bool {
    &&& v.len() == shapes.len()
    &&& forall|k: int| 0 <= k < v.len() ==> chunk_has_shape(b, #[trigger] v[k], k, shapes[k], doc)
}

/// Where a fixed-size chunk starting at `pos` ends.
pub open spec fn fixed_end(pos: int, to: int, max: usize) -> int {
    if pos + max < to { pos + max } else { to }
}

/// The fixed-size chunks of the text from `pos` to `to`: each `max` bytes
/// long but the last, each starting `max - overlap` bytes after the one
/// before, each recording `overlap` bytes shared with the previous chunk
/// (none for the first) and with the next (none for the last).
pub open spec fn fixed_shapes(pos: int, to: int, max: usize, overlap: usize, first: bool) -> Seq<ChunkShape>
    decreases (if pos < to { to - pos } else { 0 }),
{
    if pos >= to || max <= overlap {
        seq![]
    } else {
        let e = fixed_end(pos, to, max);
        seq![(pos, e, Some((if first { 0usize } else { overlap }, if e < to { overlap } else { 0usize })))]
            + fixed_shapes(pos + (max - overlap), to, max, overlap, false)
    }
}

/// Fixed-size chunking of the text from `pos` to `to` can proceed: it moves
/// forward (the overlap is less than the size) and cuts only at character
/// boundaries.
pub open spec fn fixed_cuts_ok(b: Seq<u8>, pos: int, to: int, max: usize, overlap: usize) -> bool
    decreases (if pos < to { to - pos } else { 0 }),
{
    if pos >= to {
        true
    } else if max <= overlap {
        false
    } else {
        &&& is_char_boundary(b, pos)
        &&& is_char_boundary(b, fixed_end(pos, to, max))
        &&& fixed_cuts_ok(b, pos + (max - overlap), to, max, overlap)
    }
}

/// Chunking between cut positions, from the cut at `i` on, with the
/// current chunk starting at `cs` and `any` telling whether a chunk was made
/// already: a piece that fits is a chunk when it is large enough or is the
/// first, else it is joined with what follows; a piece that does not fit is
/// cut into fixed-size chunks. Gives the chunks and whether every fixed-size
/// cut is possible.
pub open spec fn cut_walk(
    b: Seq<u8>,
    cuts: Seq<int>,
    i: int,
    cs: int,
    any: bool,
    max: usize,
    min: usize,
    overlap: usize,
) -> (Seq<ChunkShape>, bool)
    decreases cuts.len() - i,
{
    if i < 0 || i >= cuts.len() {
        (seq![], true)
    } else {
        let bd = cuts[i];
        if bd - cs <= max {
            if bd - cs >= min || !any {
                let rest = cut_walk(b, cuts, i + 1, bd, true, max, min, overlap);
                (seq![(cs, bd, None::<(usize, usize)>)] + rest.0, rest.1)
            } else {
                cut_walk(b, cuts, i + 1, cs, any, max, min, overlap)
            }
        } else {
            let f = fixed_shapes(cs, bd, max, overlap, true);
            let rest = cut_walk(b, cuts, i + 1, bd, any || f.len() > 0, max, min, overlap);
            (f + rest.0, fixed_cuts_ok(b, cs, bd, max, overlap) && rest.1)
        }
    }
}

/// The chunks of a text cut at `cuts`; the whole text as one chunk when
/// none results.
pub open spec fn cut_chunks(b: Seq<u8>, cuts: Seq<int>, max: usize, min: usize, overlap: usize) -> Seq<ChunkShape> {
    let w = cut_walk(b, cuts, 1, 0, false, max, min, overlap);
    if w.0.len() == 0 { seq![(0int, b.len() as int, None::<(usize, usize)>)] } else { w.0 }
}

fn clone_opt_string(o: &Option<String>) -> (r: Option<String>)
    ensures
        r == *o,
{
    match o {
        Some(s) => Some(s.clone()),
        None => None,
    }
}

proof fn lemma_fixed_shapes_nonempty(pos: int, to: int, max: usize, overlap: usize)
    requires
        pos < to,
        max > overlap,
    ensures
        fixed_shapes(pos, to, max, overlap, true).len() > 0,
{
}


/// Whether every fixed-size cut of the text from `from` to `to` falls on a
/// character boundary; see [`fixed_cuts_ok`].
fn fixed_cuts_possible(text: &str, from: usize, to: usize, max: usize, overlap: usize) -> (r: bool)
    requires
        from <= to <= bytes(text).len(),
    ensures
        r == fixed_cuts_ok(bytes(text), from as int, to as int, max, overlap),
{
    if from >= to {
        return true;
    }
    if max <= overlap {
        return false;
    }
    let ghost b = bytes(text);
    let mut pos = from;
    while pos < to
        invariant
            b == bytes(text),
            from <= pos <= to,
            to <= b.len(),
            max > overlap,
            fixed_cuts_ok(b, from as int, to as int, max, overlap) == fixed_cuts_ok(b, pos as int, to as int, max, overlap),
        decreases to - pos,
    {
        let end = if max < to - pos { pos + max } else { to };
        if !boundary_at(text, pos) || !boundary_at(text, end) {
            return false;
        }
        let step = max - overlap;
        proof {
            assert(end as int == fixed_end(pos as int, to as int, max));
            assert(fixed_cuts_ok(b, pos as int, to as int, max, overlap) == fixed_cuts_ok(
                b,
                pos + (max - overlap),
                to as int,
                max,
                overlap,
            ));
        }
        if step >= to - pos {
            proof {
                assert(fixed_cuts_ok(b, pos + (max - overlap), to as int, max, overlap));
                assert(fixed_cuts_ok(b, to as int, to as int, max, overlap));
            }
            pos = to;
        } else {
            pos = pos + step;
        }
    }
    true
}

/// Whether chunking between the cuts makes only fixed-size cuts on
/// character boundaries; see [`cut_walk`].
fn cut_walk_possible(text: &str, cuts: &[usize], max: usize, min: usize, overlap: usize) -> (r: bool)
    requires
        cuts_well_placed(bytes(text), as_ints(cuts@)),
    ensures
        r == cut_walk(bytes(text), as_ints(cuts@), 1, 0, false, max, min, overlap).1,
{
    let ghost b = bytes(text);
    let ghost c = as_ints(cuts@);
    let mut i: usize = 1;
    let mut cs: usize = 0;
    let mut any = false;
    while i < cuts.len()
        invariant
            b == bytes(text),
            c == as_ints(cuts@),
            cuts_well_placed(b, c),
            1 <= i <= cuts@.len(),
            cs <= cuts@[i - 1],
            cut_walk(b, c, 1, 0, false, max, min, overlap).1 == cut_walk(b, c, i as int, cs as int, any, max, min, overlap).1,
        decreases cuts@.len() - i,
    {
        let bd = cuts[i];
        proof {
            assert(c[i as int] == bd as int);
            assert(c[i - 1] < c[i as int]);
        }
        if bd - cs <= max {
            if bd - cs >= min || !any {
                cs = bd;
                any = true;
            }
        } else {
            if !fixed_cuts_possible(text, cs, bd, max, overlap) {
                return false;
            }
            proof {
                lemma_fixed_shapes_nonempty(cs as int, bd as int, max, overlap);
            }
            cs = bd;
            any = true;
        }
        i = i + 1;
    }
    true
}

/// The cut positions as integers.
pub open spec fn as_ints(v: Seq<usize>) -> Seq<int> {
    v.map_values(|x: usize| x as int)
}

/// Cuts texts into chunks; see [`ChunkingStrategy`].
pub struct TextChunker {
    config: ChunkingConfig,
}

impl TextChunker {
    /// The chunker's settings.
    pub closed spec fn settings(&self) -> ChunkingConfig {
        self.config
    }

    /// A chunker with the default settings.
    pub fn new() -> (c: Self)
        ensures
            c.settings().max_chunk_size == 2000,
            c.settings().overlap_size == 200,
            c.settings().strategy == ChunkingStrategy::Adaptive,
            c.settings().min_chunk_size == 100,
            c.settings().respect_paragraphs,
            c.settings().respect_sentences,
            c.settings().semantic_similarity_threshold_percent == 70,
            c.settings().semantic_max_chunks is None,
    {
        Self::with_config(ChunkingConfig::default())
    }

    /// A chunker with the given settings.
    pub fn with_config(config: ChunkingConfig) -> (c: Self)
        ensures
            c.settings() == config,
    {
        TextChunker { config }
    }

    /// The chunker's settings.
    pub fn config(&self) -> (c: &ChunkingConfig)
        ensures
            *c == self.settings(),
    {
        &self.config
    }

    /// Appends the fixed-size chunks of the text from `from` to `to`, with
    /// ids continuing from the chunks already in `out`.
    fn fixed_size_pieces(&self, text: &str, from: usize, to: usize, document_id: &Option<String>, out: &mut Vec<TextChunk>)
        requires
            from <= to <= bytes(text).len(),
            fixed_cuts_ok(bytes(text), from as int, to as int, self.settings().max_chunk_size, self.settings().overlap_size),
        ensures
            ({
                let f = fixed_shapes(
                    from as int,
                    to as int,
                    self.settings().max_chunk_size,
                    self.settings().overlap_size,
                    true,
                );
                &&& final(out)@.len() == old(out)@.len() + f.len()
                &&& forall|k: int| 0 <= k < old(out)@.len() ==> #[trigger] final(out)@[k] == old(out)@[k]
                &&& forall|k: int|
                    0 <= k < f.len() ==> chunk_has_shape(
                        bytes(text),
                        #[trigger] final(out)@[old(out)@.len() + k],
                        old(out)@.len() + k,
                        f[k],
                        *document_id,
                    )
            }),
    {
        let max = self.config.max_chunk_size;
        let overlap = self.config.overlap_size;
        let ghost b = bytes(text);
        let ghost all = fixed_shapes(from as int, to as int, max, overlap, true);
        let ghost start = out@.len();
        let ghost mut done: Seq<ChunkShape> = seq![];
        let mut pos = from;
        let mut first = true;
        while pos < to
            invariant
                b == bytes(text),
                from <= pos,
                to <= b.len(),
                max == self.settings().max_chunk_size,
                overlap == self.settings().overlap_size,
                all == fixed_shapes(from as int, to as int, max, overlap, true),
                all == done + fixed_shapes(pos as int, to as int, max, overlap, first),
                fixed_cuts_ok(b, pos as int, to as int, max, overlap),
                start == old(out)@.len(),
                out@.len() == start + done.len(),
                forall|k: int| 0 <= k < start ==> #[trigger] out@[k] == old(out)@[k],
                forall|k: int|
                    0 <= k < done.len() ==> chunk_has_shape(b, #[trigger] out@[start + k], start + k, done[k], *document_id),
            decreases to - pos,
        {
            let end = if max < to - pos { pos + max } else { to };
            let piece = substr(text, pos, end);
            let overlap_start = if first { 0 } else { overlap };
            let overlap_end = if end < to { overlap } else { 0 };
            let id = out.len();
            let chunk = TextChunk::with_overlap(
                id,
                piece.to_string(),
                pos,
                clone_opt_string(document_id),
                overlap_start,
                overlap_end,
            );
            let ghost sh: ChunkShape = (pos as int, end as int, Some((overlap_start, overlap_end)));
            proof {
                assert(fixed_shapes(pos as int, to as int, max, overlap, first) == seq![sh] + fixed_shapes(
                    pos + (max - overlap),
                    to as int,
                    max,
                    overlap,
                    false,
                ));
                assert(chunk_has_shape(b, chunk, id as int, sh, *document_id));
            }
            out.push(chunk);
            proof {
                done = done.push(sh);
                assert(all == done + fixed_shapes(pos + (max - overlap), to as int, max, overlap, false));
            }
            let step = max - overlap;
            if step >= to - pos {
                proof {
                    assert(fixed_shapes(pos + (max - overlap), to as int, max, overlap, false) =~= seq![]);
                    assert(fixed_shapes(to as int, to as int, max, overlap, false) =~= seq![]);
                }
                pos = to;
            } else {
                pos = pos + step;
            }
            first = false;
        }
        proof {
            assert(fixed_shapes(pos as int, to as int, max, overlap, first) =~= seq![]);
            assert(all == done);
        }
    }

    /// Cuts the whole text into fixed-size chunks.
    fn chunk_fixed_size(&self, text: &str, document_id: Option<String>) -> (r: LangExtractResult<Vec<TextChunk>>)
        requires
            fixed_cuts_ok(bytes(text), 0, bytes(text).len() as int, self.settings().max_chunk_size, self.settings().overlap_size),
        ensures
            r matches Ok(v) && chunks_match(
                bytes(text),
                v@,
                fixed_shapes(0, bytes(text).len() as int, self.settings().max_chunk_size, self.settings().overlap_size, true),
                document_id,
            ),
    {
        let mut chunks: Vec<TextChunk> = Vec::new();
        let n = byte_len(text);
        self.fixed_size_pieces(text, 0, n, &document_id, &mut chunks);
        proof {
            let f = fixed_shapes(0, n as int, self.settings().max_chunk_size, self.settings().overlap_size, true);
            assert forall|k: int| 0 <= k < chunks@.len() implies chunk_has_shape(
                bytes(text),
                #[trigger] chunks@[k],
                k,
                f[k],
                document_id,
            ) by {
                assert(chunks@[0 + k] == chunks@[k]);
            }
        }
        Ok(chunks)
    }

    /// Cuts the text at the positions `boundaries`: see [`cut_walk`].
    fn chunk_by_boundaries(&self, text: &str, boundaries: &[usize], document_id: Option<String>) -> (r:
        LangExtractResult<Vec<TextChunk>>)
        requires
            cuts_well_placed(bytes(text), as_ints(boundaries@)),
            cut_walk(
                bytes(text),
                as_ints(boundaries@),
                1,
                0,
                false,
                self.settings().max_chunk_size,
                self.settings().min_chunk_size,
                self.settings().overlap_size,
            ).1,
        ensures
            r matches Ok(v) && chunks_match(
                bytes(text),
                v@,
                cut_chunks(
                    bytes(text),
                    as_ints(boundaries@),
                    self.settings().max_chunk_size,
                    self.settings().min_chunk_size,
                    self.settings().overlap_size,
                ),
                document_id,
            ),
    {
        let max = self.config.max_chunk_size;
        let min = self.config.min_chunk_size;
        let overlap = self.config.overlap_size;
        let ghost b = bytes(text);
        let ghost cuts = as_ints(boundaries@);
        let ghost all = cut_walk(b, cuts, 1, 0, false, max, min, overlap);
        let ghost mut done: Seq<ChunkShape> = seq![];
        let mut chunks: Vec<TextChunk> = Vec::new();
        let mut current_start: usize = 0;
        let mut i: usize = 1;
        proof {
            assert(cuts[0] == boundaries@[0]);
        }
        while i < boundaries.len()
            invariant
                b == bytes(text),
                cuts == as_ints(boundaries@),
                cuts_well_placed(b, cuts),
                max == self.settings().max_chunk_size,
                min == self.settings().min_chunk_size,
                overlap == self.settings().overlap_size,
                all == cut_walk(b, cuts, 1, 0, false, max, min, overlap),
                1 <= i <= boundaries@.len(),
                all.0 == done + cut_walk(b, cuts, i as int, current_start as int, chunks@.len() > 0, max, min, overlap).0,
                cut_walk(b, cuts, i as int, current_start as int, chunks@.len() > 0, max, min, overlap).1,
                0 <= current_start <= cuts[i - 1],
                is_char_boundary(b, current_start as int),
                chunks_match(b, chunks@, done, document_id),
            decreases boundaries@.len() - i,
        {
            let boundary = boundaries[i];
            proof {
                assert(cuts[i as int] == boundary);
                assert(cuts[i - 1] < cuts[i as int]);
            }
            let size = boundary - current_start;
            let ghost any = chunks@.len() > 0;
            if size <= max {
                if size >= min || chunks.len() == 0 {
                    let piece = substr(text, current_start, boundary);
                    let chunk = TextChunk::new(chunks.len(), piece.to_string(), current_start, clone_opt_string(&document_id));
                    let ghost sh: ChunkShape = (current_start as int, boundary as int, None);
                    proof {
                        assert(chunk_has_shape(b, chunk, chunks@.len() as int, sh, document_id));
                    }
                    chunks.push(chunk);
                    proof {
                        done = done.push(sh);
                        assert(all.0 == done + cut_walk(b, cuts, i + 1, boundary as int, true, max, min, overlap).0);
                    }
                    current_start = boundary;
                }
            } else {
                let ghost before = chunks@;
                self.fixed_size_pieces(text, current_start, boundary, &document_id, &mut chunks);
                proof {
                    let f = fixed_shapes(current_start as int, boundary as int, max, overlap, true);
                    lemma_fixed_shapes_nonempty(current_start as int, boundary as int, max, overlap);
                    assert forall|k: int| 0 <= k < chunks@.len() implies chunk_has_shape(
                        b,
                        #[trigger] chunks@[k],
                        k,
                        (done + f)[k],
                        document_id,
                    ) by {
                        if k < before.len() {
                            assert(chunks@[k] == before[k]);
                        } else {
                            assert(chunks@[before.len() + (k - before.len())] == chunks@[k]);
                        }
                    }
                    done = done + f;
                }
                current_start = boundary;
            }
            i = i + 1;
        }
        proof {
            assert(cut_walk(b, cuts, i as int, current_start as int, chunks@.len() > 0, max, min, overlap).0 =~= seq![]);
            assert(all.0 == done);
        }
        if chunks.len() == 0 {
            let n = byte_len(text);
            let chunk = TextChunk::new(0, text.to_string(), 0, document_id);
            proof {
                assert(b.subrange(0, n as int) =~= b);
                assert(chunk_has_shape(b, chunk, 0, (0int, n as int, None), document_id));
            }
            chunks.push(chunk);
        }
        Ok(chunks)
    }

    /// The cut positions of the text at sentence breaks.
    fn find_sentence_boundaries(&self, text: &str) -> (v: Vec<usize>)
        ensures
            as_ints(v@) == cut_positions(bytes(text), false),
            cuts_well_placed(bytes(text), cut_positions(bytes(text), false)),
    {
        let v = find_boundaries(text, false);
        proof {
            assert(as_ints(v@) =~= cut_positions(bytes(text), false));
        }
        v
    }

    /// The cut positions of the text at paragraph breaks.
    fn find_paragraph_boundaries(&self, text: &str) -> (v: Vec<usize>)
        ensures
            as_ints(v@) == cut_positions(bytes(text), true),
            cuts_well_placed(bytes(text), cut_positions(bytes(text), true)),
    {
        let v = find_boundaries(text, true);
        proof {
            assert(as_ints(v@) =~= cut_positions(bytes(text), true));
        }
        v
    }

    /// Cuts the text at sentence breaks.
    fn chunk_by_sentences(&self, text: &str, document_id: Option<String>) -> (r: LangExtractResult<Vec<TextChunk>>)
        requires
            cut_walk(
                bytes(text),
                cut_positions(bytes(text), false),
                1,
                0,
                false,
                self.settings().max_chunk_size,
                self.settings().min_chunk_size,
                self.settings().overlap_size,
            ).1,
        ensures
            r matches Ok(v) && chunks_match(
                bytes(text),
                v@,
                cut_chunks(
                    bytes(text),
                    cut_positions(bytes(text), false),
                    self.settings().max_chunk_size,
                    self.settings().min_chunk_size,
                    self.settings().overlap_size,
                ),
                document_id,
            ),
    {
        let sentence_boundaries = self.find_sentence_boundaries(text);
        self.chunk_by_boundaries(text, sentence_boundaries.as_slice(), document_id)
    }

    /// Cuts the text at paragraph breaks.
    fn chunk_by_paragraphs(&self, text: &str, document_id: Option<String>) -> (r: LangExtractResult<Vec<TextChunk>>)
        requires
            cut_walk(
                bytes(text),
                cut_positions(bytes(text), true),
                1,
                0,
                false,
                self.settings().max_chunk_size,
                self.settings().min_chunk_size,
                self.settings().overlap_size,
            ).1,
        ensures
            r matches Ok(v) && chunks_match(
                bytes(text),
                v@,
                cut_chunks(
                    bytes(text),
                    cut_positions(bytes(text), true),
                    self.settings().max_chunk_size,
                    self.settings().min_chunk_size,
                    self.settings().overlap_size,
                ),
                document_id,
            ),
    {
        let paragraph_boundaries = self.find_paragraph_boundaries(text);
        self.chunk_by_boundaries(text, paragraph_boundaries.as_slice(), document_id)
    }
}


// ---------------------------------------------------------------------------
// Semantic chunking.

/// The number of words of a text: maximal runs of non-whitespace.
pub open spec fn word_count(s: Seq<char>) -> nat
    decreases s.len(),
{
    if s.len() == 0 {
        0
    } else {
        let r = word_count(s.drop_last());
        if !is_white_space(s.last()) && (s.len() == 1 || is_white_space(s[s.len() - 2])) { r + 1 } else { r }
    }
}

proof fn lemma_word_count_bound(s: Seq<char>)
    ensures
        word_count(s) <= s.len(),
    decreases s.len(),
{
    if s.len() > 0 {
        lemma_word_count_bound(s.drop_last());
    }
}

/// The number of whitespace-separated words of a text.
pub fn count_words(text: &str) -> (n: usize)
    ensures
        n == word_count(text@),
{
    let chars = chars_of(text);
    let ghost s = chars@;
    let mut n: usize = 0;
    let mut k: usize = 0;
    while k < chars.len()
        invariant
            s == chars@,
            k <= s.len(),
            n == word_count(s.subrange(0, k as int)),
            n <= k,
        decreases s.len() - k,
    {
        let ghost before = s.subrange(0, k as int);
        let ghost after = s.subrange(0, k + 1);
        proof {
            assert(after.drop_last() =~= before);
            if k > 0 {
                assert(after[after.len() - 2] == s[k - 1]);
            }
            lemma_word_count_bound(before);
        }
        if !white_space(chars[k]) && (k == 0 || white_space(chars[k - 1])) {
            n = n + 1;
        }
        k = k + 1;
    }
    proof {
        assert(s.subrange(0, s.len() as int) =~= s);
    }
    n
}

/// A character the semantic splitter can cut at: whitespace, or one of
/// `. ? ! * ; , ( ) [ ]`, curly quotes, `' " \``, `:`, the em dash, the
/// ellipsis, `/ \`, the en dash, `&` and `-`.
pub open spec fn is_semantic_separator(c: char) -> bool {
    is_white_space(c) || c == '.' || c == '?' || c == '!' || c == '*' || c == ';' || c == ',' || c == '(' || c == ')'
        || c == '[' || c == ']' || c == '\u{201C}' || c == '\u{201D}' || c == '\u{2018}' || c == '\u{2019}' || c
        == '\'' || c == '"' || c == '`' || c == ':' || c == '\u{2014}' || c == '\u{2026}' || c == '/' || c == '\\'
        || c == '\u{2013}' || c == '&' || c == '-'
}

/// The semantic splitter can take the text: it holds a separator, or it is
/// all ASCII (a text with neither makes the splitter fail).
pub open spec fn semantic_split_safe(s: Seq<char>) -> bool {
    (exists|k: int| 0 <= k < s.len() && is_semantic_separator(#[trigger] s[k])) || (forall|k: int|
        0 <= k < s.len() ==> (#[trigger] s[k] as u32) < 0x80)
}

/// Whether a character is one the semantic splitter cuts at; see
/// [`is_semantic_separator`].
fn is_separator_char(c: char) -> (r: bool)
    ensures
        r == is_semantic_separator(c),
{
    white_space(c) || c == '.' || c == '?' || c == '!' || c == '*' || c == ';' || c == ',' || c == '(' || c == ')'
        || c == '[' || c == ']' || c == '\u{201C}' || c == '\u{201D}' || c == '\u{2018}' || c == '\u{2019}' || c
        == '\'' || c == '"' || c == '`' || c == ':' || c == '\u{2014}' || c == '\u{2026}' || c == '/' || c == '\\'
        || c == '\u{2013}' || c == '&' || c == '-'
}

/// Whether the semantic splitter can take the text; see
/// [`semantic_split_safe`].
pub fn semantic_splittable(text: &str) -> (b: bool)
    ensures
        b == semantic_split_safe(text@),
{
    let chars = chars_of(text);
    let mut all_ascii = true;
    let mut k: usize = 0;
    while k < chars.len()
        invariant
            chars@ == text@,
            k <= chars@.len(),
            forall|j: int| 0 <= j < k ==> !is_semantic_separator(#[trigger] chars@[j]),
            all_ascii == (forall|j: int| 0 <= j < k ==> (#[trigger] chars@[j] as u32) < 0x80),
        decreases chars@.len() - k,
    {
        let c = chars[k];
        if is_separator_char(c) {
            return true;
        }
        if (c as u32) >= 0x80 {
            all_ascii = false;
        }
        k = k + 1;
    }
    all_ascii
}

/// The pieces `semchunk_rs` cuts `text` into for pieces of at most
/// `chunk_size` words.
pub uninterp spec fn semantic_pieces(text: Seq<char>, chunk_size: usize) -> Seq<Seq<char>>;

/// `semchunk_rs::Chunker::new(chunk_size, counter).chunk(text)` with the
/// counter [`count_words`]. Stated: the pieces are [`semantic_pieces`] of the
/// text and the size. The splitter recurses without end for a size of 0 and
/// fails on a text that [`semantic_split_safe`] rejects, so both are left out.
#[verifier::external_body]
fn semantic_split(text: &str, chunk_size: usize) -> (r: Vec<String>)
    requires
        chunk_size > 0,
        semantic_split_safe(text@),
    ensures
        r@.len() == semantic_pieces(text@, chunk_size).len(),
        forall|k: int| 0 <= k < r@.len() ==> (#[trigger] r@[k])@ == semantic_pieces(text@, chunk_size)[k],
{
    let chunker = semchunk_rs::Chunker::new(chunk_size, Box::new(|s: &str| count_words(s)));
    chunker.chunk(text)
}

/// The first position at or after `from` where `needle` occurs in `hay`.
pub open spec fn first_occurrence(hay: Seq<u8>, needle: Seq<u8>, from: int) -> Option<int>
    decreases hay.len() + 1 - from,
{
    if from < 0 || from + needle.len() > hay.len() {
        None
    } else if hay.subrange(from, from + needle.len()) == needle {
        Some(from)
    } else {
        first_occurrence(hay, needle, from + 1)
    }
}

fn bytes_match_at(hay: &[u8], needle: &[u8], i: usize) -> (r: bool)
    requires
        i + needle@.len() <= hay@.len(),
    ensures
        r == (hay@.subrange(i as int, i + needle@.len()) == needle@),
{
    let hay_len = hay.len();
    let mut j: usize = 0;
    while j < needle.len()
        invariant
            hay_len == hay@.len(),
            i + needle@.len() <= hay@.len(),
            j <= needle@.len(),
            forall|k: int| 0 <= k < j ==> hay@[i + k] == needle@[k],
        decreases needle@.len() - j,
    {
        if hay[i + j] != needle[j] {
            proof {
                assert(hay@.subrange(i as int, i + needle@.len())[j as int] != needle@[j as int]);
            }
            return false;
        }
        j = j + 1;
    }
    proof {
        assert(hay@.subrange(i as int, i + needle@.len()) =~= needle@);
    }
    true
}

/// The first occurrence of `needle` in `hay` at or after `from`.
pub(crate) fn find_from(hay: &[u8], needle: &[u8], from: usize) -> (r: Option<usize>)
    ensures
        r matches Some(x) ==> first_occurrence(hay@, needle@, from as int) == Some(x as int),
        r is None ==> first_occurrence(hay@, needle@, from as int) is None,
{
    if needle.len() > hay.len() {
        proof {
            assert(first_occurrence(hay@, needle@, from as int) is None);
        }
        return None;
    }
    let last = hay.len() - needle.len();
    let mut i = from;
    while i <= last
        invariant
            last == hay@.len() - needle@.len(),
            from <= i,
            first_occurrence(hay@, needle@, from as int) == first_occurrence(hay@, needle@, i as int),
        decreases last + 1 - i,
    {
        if bytes_match_at(hay, needle, i) {
            return Some(i);
        }
        if i == last {
            proof {
                assert(first_occurrence(hay@, needle@, i as int) == first_occurrence(hay@, needle@, i + 1));
                assert(first_occurrence(hay@, needle@, i + 1) is None);
            }
            return None;
        }
        i = i + 1;
    }
    None
}

/// Where a piece is placed when the search starts at `pos`: at its first
/// occurrence from there, or at `pos` when it does not occur.
pub open spec fn piece_start(b: Seq<u8>, piece: Seq<char>, pos: int) -> int {
    match first_occurrence(b, encode_utf8(piece), pos) {
        Some(x) => x,
        None => pos,
    }
}

/// The offsets of the pieces from the `i`th on, each search starting where
/// the piece before it ended.
pub open spec fn piece_starts(b: Seq<u8>, ps: Seq<Seq<char>>, i: int, pos: int) -> Seq<int>
    decreases ps.len() - i,
{
    if i < 0 || i >= ps.len() {
        seq![]
    } else {
        let st = piece_start(b, ps[i], pos);
        seq![st] + piece_starts(b, ps, i + 1, st + encode_utf8(ps[i]).len())
    }
}

/// Placing the pieces from the `i`th on can proceed: every search starts
/// within the text on a character boundary, and every end fits a `usize`.
pub open spec fn placeable(b: Seq<u8>, ps: Seq<Seq<char>>, i: int, pos: int) -> bool
    decreases ps.len() - i,
{
    if i < 0 || i >= ps.len() {
        true
    } else {
        let st = piece_start(b, ps[i], pos);
        &&& 0 <= pos <= b.len()
        &&& is_char_boundary(b, pos)
        &&& st + encode_utf8(ps[i]).len() <= usize::MAX
        &&& placeable(b, ps, i + 1, st + encode_utf8(ps[i]).len())
    }
}

/// The texts joined with single spaces.
pub open spec fn join_space(s: Seq<Seq<char>>) -> Seq<char>
    decreases s.len(),
{
    if s.len() == 0 {
        seq![]
    } else if s.len() == 1 {
        s[0]
    } else {
        join_space(s.drop_last()) + seq![' '] + s.last()
    }
}

/// Chunk `c` is the `k`th chunk, at `offset`, with text `text`, without
/// overlap.
pub open spec fn plain_chunk(c: TextChunk, k: int, offset: int, text: Seq<char>, doc: Option<String>) -> bool {
    &&& c.id == k
    &&& c.char_offset == offset
    &&& c.text@ == text
    &&& c.char_length == encode_utf8(text).len()
    &&& c.document_id == doc
    &&& !c.has_overlap
    &&& c.overlap_info is None
}

/// The chunks semantic chunking makes of the pieces `ps` of `text`: one per
/// piece at its placed offset; with more pieces than `max_chunks`, the
/// pieces from the last allowed one on merged into one chunk joined by
/// spaces; with no piece, the whole text.
pub open spec fn semantic_chunks(text: Seq<char>, ps: Seq<Seq<char>>, doc: Option<String>, max_chunks: Option<usize>, v: Seq<TextChunk>) -> bool {
    let b = encode_utf8(text);
    let starts = piece_starts(b, ps, 0, 0);
    if ps.len() == 0 {
        v.len() == 1 && plain_chunk(v[0], 0, 0, text, doc)
    } else if max_chunks is Some && ps.len() > max_chunks->0 {
        let m = max_chunks->0 as int;
        &&& v.len() == m
        &&& forall|k: int| 0 <= k < m - 1 ==> plain_chunk(#[trigger] v[k], k, starts[k], ps[k], doc)
        &&& plain_chunk(v[m - 1], m - 1, starts[m - 1], join_space(ps.subrange(m - 1, ps.len() as int)), doc)
    } else {
        &&& v.len() == ps.len()
        &&& forall|k: int| 0 <= k < v.len() ==> plain_chunk(#[trigger] v[k], k, starts[k], ps[k], doc)
    }
}

/// The texts of the pieces.
pub open spec fn piece_texts(pieces: Seq<String>) -> Seq<Seq<char>> {
    pieces.map_values(|p: String| p@)
}

proof fn lemma_piece_starts_len(b: Seq<u8>, ps: Seq<Seq<char>>, i: int, pos: int)
    requires
        0 <= i <= ps.len(),
    ensures
        piece_starts(b, ps, i, pos).len() == ps.len() - i,
    decreases ps.len() - i,
{
    if i < ps.len() {
        lemma_piece_starts_len(b, ps, i + 1, piece_start(b, ps[i], pos) + encode_utf8(ps[i]).len());
    }
}


/// A found occurrence lies at or after where the search started, and ends
/// within the text.
pub proof fn lemma_first_occurrence_bounds(hay: Seq<u8>, needle: Seq<u8>, from: int)
    ensures
        first_occurrence(hay, needle, from) matches Some(x) ==> from <= x && x + needle.len() <= hay.len(),
    decreases hay.len() + 1 - from,
{
    if !(from < 0 || from + needle.len() > hay.len()) && hay.subrange(from, from + needle.len()) != needle {
        lemma_first_occurrence_bounds(hay, needle, from + 1);
    }
}

#[verifier::rlimit(40)]
proof fn lemma_piece_starts_ordered(b: Seq<u8>, ps: Seq<Seq<char>>, i: int, pos: int)
    requires
        0 <= i <= ps.len(),
    ensures
        piece_starts(b, ps, i, pos).len() == ps.len() - i,
        i < ps.len() ==> piece_starts(b, ps, i, pos)[0] >= pos,
        forall|k: int| 0 <= k < ps.len() - i - 1 ==> #[trigger] piece_starts(b, ps, i, pos)[k] + encode_utf8(ps[i + k]).len()
            <= piece_starts(b, ps, i, pos)[k + 1],
    decreases ps.len() - i,
{
    if i < ps.len() {
        lemma_first_occurrence_bounds(b, encode_utf8(ps[i]), pos);
        let st = piece_start(b, ps[i], pos);
        let next = st + encode_utf8(ps[i]).len();
        lemma_piece_starts_ordered(b, ps, i + 1, next);
        let rest = piece_starts(b, ps, i + 1, next);
        let all = piece_starts(b, ps, i, pos);
        assert(all == seq![st] + rest);
        assert forall|k: int| 0 <= k < ps.len() - i - 1 implies #[trigger] all[k] + encode_utf8(ps[i + k]).len() <= all[k + 1] by {
            if k == 0 {
                assert(all[1] == rest[0]);
            } else {
                assert(all[k] == rest[k - 1]);
                assert(all[k + 1] == rest[k]);
                assert(rest[k - 1] + encode_utf8(ps[(i + 1) + (k - 1)]).len() <= rest[(k - 1) + 1]);
            }
        }
    }
}

/// Semantic pieces never overlap: each piece is placed no earlier than
/// where the piece before it ends, and the first no earlier than where the
/// search starts.
pub proof fn lemma_semantic_pieces_ordered(b: Seq<u8>, ps: Seq<Seq<char>>, pos: int)
    ensures
        ps.len() > 0 ==> piece_starts(b, ps, 0, pos)[0] >= pos,
        forall|k: int| 0 <= k < ps.len() - 1 ==> #[trigger] piece_starts(b, ps, 0, pos)[k] + encode_utf8(ps[k]).len()
            <= piece_starts(b, ps, 0, pos)[k + 1],
{
    lemma_piece_starts_ordered(b, ps, 0, pos);
    assert forall|k: int| 0 <= k < ps.len() - 1 implies #[trigger] piece_starts(b, ps, 0, pos)[k] + encode_utf8(ps[k]).len()
        <= piece_starts(b, ps, 0, pos)[k + 1] by {
        assert(ps[0 + k] == ps[k]);
    }
}

/// Whether the pieces can be placed in the text; see [`placeable`].
fn pieces_placeable(text: &str, pieces: &Vec<String>) -> (r: bool)
    ensures
        r == placeable(bytes(text), piece_texts(pieces@), 0, 0),
{
    let b = text.as_bytes();
    let ghost ps = piece_texts(pieces@);
    let mut pos: usize = 0;
    let mut i: usize = 0;
    while i < pieces.len()
        invariant
            b@ == bytes(text),
            ps == piece_texts(pieces@),
            i <= pieces@.len(),
            placeable(b@, ps, 0, 0) == placeable(b@, ps, i as int, pos as int),
        decreases pieces@.len() - i,
    {
        if pos > b.len() || !text.is_char_boundary(pos) {
            return false;
        }
        let piece = pieces[i].as_str().as_bytes();
        let start = match find_from(b, piece, pos) {
            Some(x) => x,
            None => pos,
        };
        let plen = piece.len();
        if start > usize::MAX - plen {
            return false;
        }
        pos = start + plen;
        i = i + 1;
    }
    true
}

/// Makes chunks of semantic pieces of `text`: see [`semantic_chunks`].
pub fn place_semantic_chunks(text: &str, pieces: Vec<String>, document_id: Option<String>, max_chunks: Option<usize>) -> (v:
    Vec<TextChunk>)
    requires
        placeable(bytes(text), piece_texts(pieces@), 0, 0),
        max_chunks != Some(0usize),
    ensures
        semantic_chunks(text@, piece_texts(pieces@), document_id, max_chunks, v@),
{
    let b = text.as_bytes();
    let ghost ps = piece_texts(pieces@);
    let ghost starts = piece_starts(b@, ps, 0, 0);
    proof {
        lemma_piece_starts_len(b@, ps, 0, 0);
    }
    let mut chunks: Vec<TextChunk> = Vec::new();
    let mut current_pos: usize = 0;
    let mut i: usize = 0;
    while i < pieces.len()
        invariant
            b@ == bytes(text),
            ps == piece_texts(pieces@),
            starts == piece_starts(b@, ps, 0, 0),
            starts.len() == ps.len(),
            i <= pieces@.len(),
            chunks@.len() == i,
            placeable(b@, ps, i as int, current_pos as int),
            forall|j: int| 0 <= j < ps.len() - i ==> #[trigger] piece_starts(b@, ps, i as int, current_pos as int)[j]
                == starts[i + j],
            forall|k: int| 0 <= k < i ==> plain_chunk(#[trigger] chunks@[k], k, starts[k], ps[k], document_id),
        decreases pieces@.len() - i,
    {
        let piece = pieces[i].as_str();
        let start_pos = match find_from(b, piece.as_bytes(), current_pos) {
            Some(found) => found,
            None => current_pos,
        };
        let plen = byte_len(piece);
        let end_pos = start_pos + plen;
        let chunk = TextChunk::new(i, pieces[i].clone(), start_pos, clone_opt_string(&document_id));
        proof {
            lemma_piece_starts_len(b@, ps, i + 1, end_pos as int);
            let here = piece_starts(b@, ps, i as int, current_pos as int);
            let next = piece_starts(b@, ps, i + 1, end_pos as int);
            assert(here == seq![start_pos as int] + next);
            assert(here[0] == starts[i as int]);
            assert forall|j: int| 0 <= j < ps.len() - (i + 1) implies #[trigger] next[j] == starts[i + 1 + j] by {
                assert(next[j] == here[j + 1]);
            }
            assert(ps[i as int] == pieces@[i as int]@);
        }
        chunks.push(chunk);
        current_pos = end_pos;
        i = i + 1;
    }
    if chunks.len() == 0 {
        let chunk = TextChunk::new(0, text.to_string(), 0, document_id);
        let mut single: Vec<TextChunk> = Vec::new();
        single.push(chunk);
        return single;
    }
    match max_chunks {
        Some(max) => {
            if chunks.len() > max {
                let mut merged_chunks: Vec<TextChunk> = Vec::new();
                let mut k: usize = 0;
                while k < max - 1
                    invariant
                        max >= 1,
                        k <= max - 1,
                        max < chunks@.len(),
                        merged_chunks@.len() == k,
                        forall|j: int| 0 <= j < k ==> #[trigger] merged_chunks@[j] == chunks@[j],
                    decreases max - 1 - k,
                {
                    merged_chunks.push(chunks[k].duplicate());
                    k = k + 1;
                }
                let mut merged_text = String::new();
                let mut j: usize = max - 1;
                while j < chunks.len()
                    invariant
                        max >= 1,
                        max - 1 <= j <= chunks@.len(),
                        chunks@.len() == ps.len(),
                        forall|q: int| 0 <= q < chunks@.len() ==> (#[trigger] chunks@[q]).text@ == ps[q],
                        merged_text@ == join_space(ps.subrange(max - 1, j as int)),
                    decreases chunks@.len() - j,
                {
                    let ghost before = ps.subrange(max - 1, j as int);
                    let ghost after = ps.subrange(max - 1, j + 1);
                    proof {
                        assert(after.drop_last() =~= before);
                        assert(after.last() == ps[j as int]);
                    }
                    if j > max - 1 {
                        push_char(&mut merged_text, ' ');
                    }
                    push_str(&mut merged_text, chunks[j].text.as_str());
                    proof {
                        if j == max - 1 {
                            assert(after =~= seq![ps[j as int]]);
                        }
                        assert(merged_text@ =~= join_space(after));
                    }
                    j = j + 1;
                }
                let merged_start = chunks[max - 1].char_offset;
                let merged_chunk = TextChunk::new(max - 1, merged_text, merged_start, document_id);
                merged_chunks.push(merged_chunk);
                proof {
                    assert forall|q: int| 0 <= q < max - 1 implies plain_chunk(
                        #[trigger] merged_chunks@[q],
                        q,
                        starts[q],
                        ps[q],
                        document_id,
                    ) by {
                        assert(merged_chunks@[q] == chunks@[q]);
                    }
                }
                return merged_chunks;
            }
            chunks
        },
        None => chunks,
    }
}

/// What semantic chunking of `text` gives: the chunks of [`semantic_chunks`]
/// when the pieces can be placed, else an error.
pub open spec fn semantic_outcome(text: Seq<char>, max: usize, doc: Option<String>, max_chunks: Option<usize>, r: LangExtractResult<Vec<TextChunk>>) -> bool {
    let ps = semantic_pieces(text, max);
    if placeable(encode_utf8(text), ps, 0, 0) {
        r matches Ok(v) && semantic_chunks(text, ps, doc, max_chunks, v@)
    } else {
        r matches Err(LangExtractError::ChunkingError(m)) && m@ == "Semantic chunk could not be placed in the text"@
    }
}

impl TextChunker {
    /// Cuts the text with the semantic splitter and places the pieces in
    /// the text.
    fn chunk_semantic(&self, text: &str, document_id: Option<String>) -> (r: LangExtractResult<Vec<TextChunk>>)
        requires
            self.settings().max_chunk_size > 0,
            semantic_split_safe(text@),
            self.settings().semantic_max_chunks != Some(0usize),
        ensures
            semantic_outcome(text@, self.settings().max_chunk_size, document_id, self.settings().semantic_max_chunks, r),
    {
        let pieces = semantic_split(text, self.config.max_chunk_size);
        proof {
            assert(piece_texts(pieces@) =~= semantic_pieces(text@, self.settings().max_chunk_size));
        }
        if !pieces_placeable(text, &pieces) {
            return Err(LangExtractError::chunking("Semantic chunk could not be placed in the text"));
        }
        Ok(place_semantic_chunks(text, pieces, document_id, self.config.semantic_max_chunks))
    }

    /// The same as semantic chunking.
    fn chunk_adaptive(&self, text: &str, document_id: Option<String>) -> (r: LangExtractResult<Vec<TextChunk>>)
        requires
            self.settings().max_chunk_size > 0,
            semantic_split_safe(text@),
            self.settings().semantic_max_chunks != Some(0usize),
        ensures
            semantic_outcome(text@, self.settings().max_chunk_size, document_id, self.settings().semantic_max_chunks, r),
    {
        self.chunk_semantic(text, document_id)
    }

    /// The text can be chunked with the settings: a text longer than the
    /// size needs cuts on character boundaries for the fixed-size,
    /// sentence and paragraph strategies, and a positive size, a text the
    /// semantic splitter takes and a limit other than 0 for the semantic ones.
    pub open spec fn chunkable(&self, text: Seq<char>) -> bool {
        let b = encode_utf8(text);
        let c = self.settings();
        b.len() > c.max_chunk_size ==> match c.strategy {
            ChunkingStrategy::FixedSize => fixed_cuts_ok(b, 0, b.len() as int, c.max_chunk_size, c.overlap_size),
            ChunkingStrategy::Sentence => cut_walk(
                b,
                cut_positions(b, false),
                1,
                0,
                false,
                c.max_chunk_size,
                c.min_chunk_size,
                c.overlap_size,
            ).1,
            ChunkingStrategy::Paragraph => cut_walk(
                b,
                cut_positions(b, true),
                1,
                0,
                false,
                c.max_chunk_size,
                c.min_chunk_size,
                c.overlap_size,
            ).1,
            _ => c.max_chunk_size > 0 && semantic_split_safe(text) && c.semantic_max_chunks != Some(0usize),
        }
    }

    /// What chunking `text` gives: the whole text as one chunk when it fits
    /// the size, else the chunks of the strategy.
    pub open spec fn chunk_text_outcome(&self, text: Seq<char>, doc: Option<String>, r: LangExtractResult<Vec<TextChunk>>) -> bool {
        let b = encode_utf8(text);
        let c = self.settings();
        if b.len() <= c.max_chunk_size {
            r matches Ok(v) && chunks_match(b, v@, seq![(0int, b.len() as int, None::<(usize, usize)>)], doc)
        } else {
            match c.strategy {
                ChunkingStrategy::FixedSize => r matches Ok(v) && chunks_match(
                    b,
                    v@,
                    fixed_shapes(0, b.len() as int, c.max_chunk_size, c.overlap_size, true),
                    doc,
                ),
                ChunkingStrategy::Sentence => r matches Ok(v) && chunks_match(
                    b,
                    v@,
                    cut_chunks(b, cut_positions(b, false), c.max_chunk_size, c.min_chunk_size, c.overlap_size),
                    doc,
                ),
                ChunkingStrategy::Paragraph => r matches Ok(v) && chunks_match(
                    b,
                    v@,
                    cut_chunks(b, cut_positions(b, true), c.max_chunk_size, c.min_chunk_size, c.overlap_size),
                    doc,
                ),
                _ => semantic_outcome(text, c.max_chunk_size, doc, c.semantic_max_chunks, r),
            }
        }
    }

    /// Whether the text can be chunked with the settings; see
    /// [`TextChunker::chunkable`].
    pub fn chunkable_now(&self, text: &str) -> (b: bool)
        ensures
            b == self.chunkable(text@),
    {
        let n = byte_len(text);
        let c = &self.config;
        if n <= c.max_chunk_size {
            return true;
        }
        match c.strategy {
            ChunkingStrategy::FixedSize => fixed_cuts_possible(text, 0, n, c.max_chunk_size, c.overlap_size),
            ChunkingStrategy::Sentence => {
                let cuts = self.find_sentence_boundaries(text);
                cut_walk_possible(text, cuts.as_slice(), c.max_chunk_size, c.min_chunk_size, c.overlap_size)
            },
            ChunkingStrategy::Paragraph => {
                let cuts = self.find_paragraph_boundaries(text);
                cut_walk_possible(text, cuts.as_slice(), c.max_chunk_size, c.min_chunk_size, c.overlap_size)
            },
            _ => c.max_chunk_size > 0 && semantic_splittable(text) && match c.semantic_max_chunks {
                Some(m) => m != 0,
                None => true,
            },
        }
    }

    /// Cuts a text into chunks.
    pub fn chunk_text(&self, text: &str, document_id: Option<String>) -> (r: LangExtractResult<Vec<TextChunk>>)
        requires
            self.chunkable(text@),
        ensures
            self.chunk_text_outcome(text@, document_id, r),
    {
        let n = byte_len(text);
        if n <= self.config.max_chunk_size {
            let chunk = TextChunk::new(0, text.to_string(), 0, document_id);
            proof {
                assert(bytes(text).subrange(0, n as int) =~= bytes(text));
            }
            let mut v: Vec<TextChunk> = Vec::new();
            v.push(chunk);
            return Ok(v);
        }
        match self.config.strategy {
            ChunkingStrategy::FixedSize => self.chunk_fixed_size(text, document_id),
            ChunkingStrategy::Sentence => self.chunk_by_sentences(text, document_id),
            ChunkingStrategy::Paragraph => self.chunk_by_paragraphs(text, document_id),
            ChunkingStrategy::Adaptive => self.chunk_adaptive(text, document_id),
            ChunkingStrategy::Semantic => self.chunk_semantic(text, document_id),
        }
    }

    /// Cuts a document's text into chunks carrying its id.
    pub fn chunk_document(&self, document: &Document) -> (r: LangExtractResult<Vec<TextChunk>>)
        requires
            self.chunkable(document.text@),
        ensures
            self.chunk_text_outcome(document.text@, document.document_id, r),
    {
        self.chunk_text(document.text.as_str(), clone_opt_string(&document.document_id))
    }
}

impl Default for TextChunker {
    fn default() -> (c: Self)
        ensures
            c.settings().max_chunk_size == 2000,
            c.settings().overlap_size == 200,
            c.settings().strategy == ChunkingStrategy::Adaptive,
            c.settings().min_chunk_size == 100,
            c.settings().semantic_max_chunks is None,
    {
        Self::new()
    }
}


/// Fixed-size chunking covers the text from `pos` to `to`: the first chunk
/// starts at `pos`, the last ends at `to`, each chunk holds between one and
/// `max` bytes, and each starts `max - overlap` bytes after the one before.
pub proof fn lemma_fixed_shapes_cover(pos: int, to: int, max: usize, overlap: usize, first: bool)
    requires
        pos < to,
        max > overlap,
    ensures
        ({
            let f = fixed_shapes(pos, to, max, overlap, first);
            &&& f.len() > 0
            &&& f[0].0 == pos
            &&& f.last().1 == to
            &&& forall|k: int| 0 <= k < f.len() ==> (#[trigger] f[k]).0 < f[k].1 <= f[k].0 + max
            &&& forall|k: int| 0 < k < f.len() ==> (#[trigger] f[k]).0 == f[k - 1].0 + (max - overlap)
        }),
    decreases to - pos,
{
    let f = fixed_shapes(pos, to, max, overlap, first);
    let next = pos + (max - overlap);
    let rest = fixed_shapes(next, to, max, overlap, false);
    let e = fixed_end(pos, to, max);
    assert(f == seq![(pos, e, Some((if first { 0usize } else { overlap }, if e < to { overlap } else { 0usize })))] + rest);
    if next < to {
        lemma_fixed_shapes_cover(next, to, max, overlap, false);
        assert forall|k: int| 0 <= k < f.len() implies (#[trigger] f[k]).0 < f[k].1 <= f[k].0 + max by {
            if k > 0 {
                assert(f[k] == rest[k - 1]);
            }
        }
        assert forall|k: int| 0 < k < f.len() implies (#[trigger] f[k]).0 == f[k - 1].0 + (max - overlap) by {
            assert(f[k] == rest[k - 1]);
            if k > 1 {
                assert(f[k - 1] == rest[k - 2]);
                assert(rest[k - 1].0 == rest[k - 2].0 + (max - overlap));
            }
        }
        assert(f.last() == rest.last());
    } else {
        assert(rest =~= seq![]);
        assert(f.len() == 1);
    }
}


// ---------------------------------------------------------------------------
// What cutting at boundaries covers.

/// The cut positions start at 0, rise strictly and end at the end of the
/// text.
proof fn lemma_cut_positions_shape(b: Seq<u8>, paragraphs: bool)
    requires
        valid_utf8(b),
    ensures
        ({
            let c = cut_positions(b, paragraphs);
            &&& c.len() >= 1
            &&& c[0] == 0
            &&& c.last() == b.len()
            &&& forall|k: int| 0 <= k < c.len() ==> 0 <= #[trigger] c[k] <= b.len()
            &&& forall|k: int| 0 < k < c.len() ==> c[k - 1] < #[trigger] c[k]
        }),
{
    lemma_break_ends(b, paragraphs, 0);
    let ends = break_ends(b, paragraphs, 0);
    let last = if ends.len() > 0 { ends.last() } else { 0 };
    let c = cut_positions(b, paragraphs);
    let tail: Seq<int> = if last != b.len() { seq![b.len() as int] } else { seq![] };
    assert(c == seq![0int] + ends + tail);
    assert forall|k: int| 0 < k < c.len() implies c[k - 1] < #[trigger] c[k] by {
        if k <= ends.len() {
            if k >= 2 {
                assert(c[k - 1] == ends[k - 2]);
            }
            assert(c[k] == ends[k - 1]);
        } else {
            if ends.len() > 0 {
                assert(c[k - 1] == ends[ends.len() - 1]);
            }
        }
    }
    assert forall|k: int| 0 <= k < c.len() implies 0 <= #[trigger] c[k] <= b.len() by {
        if 1 <= k <= ends.len() {
            assert(c[k] == ends[k - 1]);
        }
    }
}

/// Chunks that start at `cs`, lie within the text up to `len`, and each
/// start after the one before starts and no later than it ends.
spec fn chain_from(w: Seq<ChunkShape>, cs: int, len: int) -> bool {
    &&& w.len() > 0 ==> w[0].0 == cs
    &&& forall|k: int| 0 <= k < w.len() ==> cs <= (#[trigger] w[k]).0 < w[k].1 <= len
    &&& forall|k: int| 0 < k < w.len() ==> w[k - 1].0 < (#[trigger] w[k]).0 <= w[k - 1].1
}

/// A chain ending at `bd` followed by one starting there is a chain.
proof fn lemma_chain_concat(h: Seq<ChunkShape>, r: Seq<ChunkShape>, cs: int, bd: int, len: int)
    requires
        h.len() > 0,
        chain_from(h, cs, bd),
        h.last().1 == bd,
        chain_from(r, bd, len),
        bd <= len,
    ensures
        chain_from(h + r, cs, len),
        (h + r).last() == if r.len() > 0 { r.last() } else { h.last() },
{
    let w = h + r;
    assert forall|k: int| 0 <= k < w.len() implies cs <= (#[trigger] w[k]).0 < w[k].1 <= len by {
        if k < h.len() {
            assert(w[k] == h[k]);
        } else {
            assert(w[k] == r[k - h.len()]);
        }
    }
    assert forall|k: int| 0 < k < w.len() implies w[k - 1].0 < (#[trigger] w[k]).0 <= w[k - 1].1 by {
        if k < h.len() {
            assert(w[k] == h[k]);
            assert(w[k - 1] == h[k - 1]);
        } else if k == h.len() {
            assert(w[k - 1] == h.last());
            assert(w[k] == r[0]);
        } else {
            assert(w[k] == r[k - h.len()]);
            assert(w[k - 1] == r[k - 1 - h.len()]);
        }
    }
    assert(w[0] == h[0]);
}

/// The fixed-size chunks from `cs` to `bd` form a chain ending at `bd`.
proof fn lemma_fixed_chain(cs: int, bd: int, max: usize, overlap: usize)
    requires
        cs < bd,
        max > overlap,
    ensures
        fixed_shapes(cs, bd, max, overlap, true).len() > 0,
        chain_from(fixed_shapes(cs, bd, max, overlap, true), cs, bd),
        fixed_shapes(cs, bd, max, overlap, true).last().1 == bd,
{
    let f = fixed_shapes(cs, bd, max, overlap, true);
    lemma_fixed_shapes_cover(cs, bd, max, overlap, true);
    assert forall|k: int| 0 <= k < f.len() implies cs <= (#[trigger] f[k]).0 < f[k].1 <= bd by {
        lemma_fixed_starts_rise(f, cs, max, overlap, k);
        lemma_fixed_shape_end(cs, bd, max, overlap, true, k);
    }
    assert forall|k: int| 0 < k < f.len() implies f[k - 1].0 < (#[trigger] f[k]).0 <= f[k - 1].1 by {
        assert(f[k].0 == f[k - 1].0 + (max - overlap));
        lemma_fixed_shape_end(cs, bd, max, overlap, true, k - 1);
    }
}

/// Walking the cuts from the `i`th on, with the chunk under way starting
/// at `cs`, makes chunks that start at `cs`, each after the one before it
/// and no later than where that one ends; the last ends at the end of the
/// text or less than `min` before it.
proof fn lemma_walk_covers(b: Seq<u8>, cuts: Seq<int>, i: int, cs: int, any: bool, max: usize, min: usize, overlap: usize)
    requires
        cuts.len() >= 1,
        cuts.last() == b.len(),
        forall|k: int| 0 <= k < cuts.len() ==> 0 <= #[trigger] cuts[k] <= b.len(),
        forall|k: int| 0 < k < cuts.len() ==> cuts[k - 1] < #[trigger] cuts[k],
        1 <= i <= cuts.len(),
        0 <= cs <= cuts[i - 1],
        cs == cuts[i - 1] || cuts[i - 1] - cs < min,
        cut_walk(b, cuts, i, cs, any, max, min, overlap).1,
    ensures
        ({
            let w = cut_walk(b, cuts, i, cs, any, max, min, overlap).0;
            &&& chain_from(w, cs, b.len() as int)
            &&& w.len() > 0 ==> (w.last().1 == b.len() || b.len() - w.last().1 < min)
            &&& w.len() == 0 ==> (cs == b.len() || b.len() - cs < min)
        }),
    decreases cuts.len() - i,
{
    if i < cuts.len() {
        let bd = cuts[i];
        assert(cuts[i - 1] < bd && bd <= b.len());
        let w = cut_walk(b, cuts, i, cs, any, max, min, overlap);
        if bd - cs <= max {
            if bd - cs >= min || !any {
                lemma_walk_covers(b, cuts, i + 1, bd, true, max, min, overlap);
                let rest = cut_walk(b, cuts, i + 1, bd, true, max, min, overlap);
                let h = seq![(cs, bd, None::<(usize, usize)>)];
                assert(w.0 == h + rest.0);
                lemma_chain_concat(h, rest.0, cs, bd, b.len() as int);
            } else {
                lemma_walk_covers(b, cuts, i + 1, cs, any, max, min, overlap);
            }
        } else {
            let f = fixed_shapes(cs, bd, max, overlap, true);
            lemma_fixed_chain(cs, bd, max, overlap);
            lemma_walk_covers(b, cuts, i + 1, bd, any || f.len() > 0, max, min, overlap);
            let rest = cut_walk(b, cuts, i + 1, bd, any || f.len() > 0, max, min, overlap);
            assert(w.0 == f + rest.0);
            lemma_chain_concat(f, rest.0, cs, bd, b.len() as int);
        }
    }
}

/// The starts of fixed-size chunks rise from the first one on.
proof fn lemma_fixed_starts_rise(f: Seq<ChunkShape>, pos: int, max: usize, overlap: usize, k: int)
    requires
        max > overlap,
        f.len() > 0,
        f[0].0 == pos,
        forall|j: int| 0 < j < f.len() ==> (#[trigger] f[j]).0 == f[j - 1].0 + (max - overlap),
        0 <= k < f.len(),
    ensures
        pos <= f[k].0,
    decreases k,
{
    if k > 0 {
        lemma_fixed_starts_rise(f, pos, max, overlap, k - 1);
        assert(f[k].0 == f[k - 1].0 + (max - overlap));
    }
}

/// The `k`th fixed-size chunk ends where a chunk starting at its start would.
proof fn lemma_fixed_shape_end(pos: int, to: int, max: usize, overlap: usize, first: bool, k: int)
    requires
        max > overlap,
        0 <= k < fixed_shapes(pos, to, max, overlap, first).len(),
    ensures
        fixed_shapes(pos, to, max, overlap, first)[k].1 == fixed_end(fixed_shapes(pos, to, max, overlap, first)[k].0, to, max),
    decreases (if pos < to { to - pos } else { 0 }),
{
    let next = pos + (max - overlap);
    let e = fixed_end(pos, to, max);
    let rest = fixed_shapes(next, to, max, overlap, false);
    assert(fixed_shapes(pos, to, max, overlap, first) == seq![(pos, e, Some((if first { 0usize } else { overlap }, if e < to { overlap } else { 0usize })))] + rest);
    if k > 0 {
        lemma_fixed_shape_end(next, to, max, overlap, false, k - 1);
    }
}

/// Byte `p` lies in chunk `c`.
pub open spec fn chunk_holds(c: TextChunk, p: int) -> bool {
    c.char_offset <= p < c.char_offset + c.char_length
}

/// Byte `p` lies in one of the chunks.
pub open spec fn chunks_hold(v: Seq<TextChunk>, p: int) -> bool {
    exists|k: int| 0 <= k < v.len() && #[trigger] chunk_holds(v[k], p)
}

/// Intervals that start at the first one's start and where each starts no
/// later than the one before ends hold every position before the last end.
proof fn lemma_chain_holds(v: Seq<TextChunk>, n: int, p: int)
    requires
        0 < n <= v.len(),
        forall|k: int| 0 < k < n ==> (#[trigger] v[k]).char_offset <= v[k - 1].char_offset + v[k - 1].char_length,
        v[0].char_offset <= p < v[n - 1].char_offset + v[n - 1].char_length,
    ensures
        exists|k: int| 0 <= k < n && #[trigger] chunk_holds(v[k], p),
    decreases n,
{
    if p < v[n - 1].char_offset {
        assert(v[n - 1].char_offset <= v[n - 2].char_offset + v[n - 2].char_length);
        lemma_chain_holds(v, n - 1, p);
        let k = choose|k: int| 0 <= k < n - 1 && #[trigger] chunk_holds(v[k], p);
        assert(0 <= k < n);
    } else {
        assert(chunk_holds(v[n - 1], p));
    }
}

/// Sentence and paragraph chunking leave out no text before the end of the
/// last chunk: the first chunk starts at the start of the text, each next
/// one starts after the one before it starts and no later than where that
/// one ends, and every byte up to the end of the last chunk lies in some
/// chunk. The last chunk ends at the end of the text, or less than the
/// minimum chunk size before it: a final run of pieces, together shorter
/// than that size, is left out.
pub proof fn lemma_boundary_chunks_cover(chunker: TextChunker, text: Seq<char>, doc: Option<String>, r: LangExtractResult<Vec<TextChunk>>)
    requires
        chunker.settings().strategy == ChunkingStrategy::Sentence || chunker.settings().strategy
            == ChunkingStrategy::Paragraph,
        chunker.chunkable(text),
        chunker.chunk_text_outcome(text, doc, r),
    ensures
        r matches Ok(v) && {
            let n = v@.len();
            let len = encode_utf8(text).len();
            let last_end = v@[n - 1].char_offset + v@[n - 1].char_length;
            &&& n > 0
            &&& v@[0].char_offset == 0
            &&& forall|k: int| 0 < k < n ==> v@[k - 1].char_offset < (#[trigger] v@[k]).char_offset <= v@[k - 1].char_offset
                + v@[k - 1].char_length
            &&& forall|p: int| 0 <= p < last_end ==> #[trigger] chunks_hold(v@, p)
            &&& last_end <= len
            &&& (last_end == len || len - last_end < chunker.settings().min_chunk_size)
        },
{
    let b = encode_utf8(text);
    let c = chunker.settings();
    encode_utf8_valid_utf8(text);
    let v = r->Ok_0;
    if b.len() <= c.max_chunk_size {
        assert(v@.len() == 1);
        assert(chunk_has_shape(b, v@[0], 0, (0int, b.len() as int, None::<(usize, usize)>), doc));
    } else {
        let paragraphs = c.strategy == ChunkingStrategy::Paragraph;
        let cuts = cut_positions(b, paragraphs);
        lemma_cut_positions_shape(b, paragraphs);
        lemma_walk_covers(b, cuts, 1, 0, false, c.max_chunk_size, c.min_chunk_size, c.overlap_size);
        let w = cut_walk(b, cuts, 1, 0, false, c.max_chunk_size, c.min_chunk_size, c.overlap_size).0;
        let s = cut_chunks(b, cuts, c.max_chunk_size, c.min_chunk_size, c.overlap_size);
        assert(chunks_match(b, v@, s, doc));
        assert forall|k: int| 0 <= k < v@.len() implies (#[trigger] v@[k]).char_offset == s[k].0 && v@[k].char_offset
            + v@[k].char_length == s[k].1 by {
            assert(chunk_has_shape(b, v@[k], k, s[k], doc));
        }
        assert forall|k: int| 0 < k < v@.len() implies v@[k - 1].char_offset < (#[trigger] v@[k]).char_offset
            <= v@[k - 1].char_offset + v@[k - 1].char_length by {
            assert(v@[k - 1].char_offset == s[k - 1].0);
        }
    }
    let n = v@.len();
    assert(v@[0].char_offset == 0);
    assert forall|p: int| 0 <= p < v@[n - 1].char_offset + v@[n - 1].char_length implies #[trigger] chunks_hold(v@, p) by {
        lemma_chain_holds(v@, n as int, p);
    }
}

} // verus!
