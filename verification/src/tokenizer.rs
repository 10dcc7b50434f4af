//! Splitting text into word, number, acronym and punctuation tokens, and
//! finding sentence boundaries over those tokens.
//!
//! The token grammar, read at each position after skipping whitespace, is
//! (first alternative that matches wins, each run as long as possible):
//!
//! 1. alphanumerics followed by one or more groups of `/` and alphanumerics
//!    (`HTML/CSS/JS`);
//! 2. ASCII letters;
//! 3. ASCII digits;
//! 4. anything else that is neither an ASCII letter or digit nor Unicode
//!    whitespace.
//!
//! Offsets are byte offsets into the UTF-8 text, and every token starts and
//! ends on a character boundary.

use vstd::prelude::*;
use vstd::string::*;
use vstd::utf8::*;
use crate::exceptions::{LangExtractError, LangExtractResult};
use crate::text::{bytes, lemma_str_valid, lemma_boundary_iff, lemma_boundary_after_ascii, lemma_boundary_step, substr, lemma_chars_of, push_str, decimal_string, decimal};

verus! {

broadcast use vstd::seq::group_seq_axioms;

// ---------------------------------------------------------------------------
// The byte classes of the token grammar.

/// An ASCII letter.
pub open spec fn is_letter(c: u8) -> bool {
    (65 <= c <= 90) || (97 <= c <= 122)
}

/// An ASCII digit.
pub open spec fn is_digit(c: u8) -> bool {
    48 <= c <= 57
}

/// An ASCII letter or digit.
pub open spec fn is_alnum(c: u8) -> bool {
    is_letter(c) || is_digit(c)
}

/// The byte length of the Unicode whitespace character encoded at `i`, or 0
/// when none starts there (the White_Space characters: tab to carriage
/// return, space, U+0085, U+00A0, U+1680, U+2000 to U+200A, U+2028, U+2029,
/// U+202F, U+205F and U+3000).
pub open spec fn ws_len(b: Seq<u8>, i: int) -> int {
    if i < 0 || i >= b.len() {
        0
    } else if (9 <= b[i] <= 13) || b[i] == 32 {
        1
    } else if b[i] == 0xC2 && i + 1 < b.len() && (b[i + 1] == 0x85 || b[i + 1] == 0xA0) {
        2
    } else if i + 2 < b.len() && (
        (b[i] == 0xE1 && b[i + 1] == 0x9A && b[i + 2] == 0x80)
        || (b[i] == 0xE2 && b[i + 1] == 0x80 && ((0x80 <= b[i + 2] <= 0x8A) || b[i + 2] == 0xA8
            || b[i + 2] == 0xA9 || b[i + 2] == 0xAF))
        || (b[i] == 0xE2 && b[i + 1] == 0x81 && b[i + 2] == 0x9F)
        || (b[i] == 0xE3 && b[i + 1] == 0x80 && b[i + 2] == 0x80)) {
        3
    } else {
        0
    }
}

/// A byte of the fourth alternative: neither alphanumeric nor the start of
/// whitespace.
pub open spec fn is_symbol_at(b: Seq<u8>, i: int) -> bool {
    0 <= i < b.len() && !is_alnum(b[i]) && ws_len(b, i) == 0
}

/// Where the run of alphanumerics starting at `i` ends.
pub open spec fn alnum_run_end(b: Seq<u8>, i: int) -> int
    decreases b.len() - i,
{
    if 0 <= i < b.len() && is_alnum(b[i]) { alnum_run_end(b, i + 1) } else { i }
}

/// Where the run of letters starting at `i` ends.
pub open spec fn letter_run_end(b: Seq<u8>, i: int) -> int
    decreases b.len() - i,
{
    if 0 <= i < b.len() && is_letter(b[i]) { letter_run_end(b, i + 1) } else { i }
}

/// Where the run of digits starting at `i` ends.
pub open spec fn digit_run_end(b: Seq<u8>, i: int) -> int
    decreases b.len() - i,
{
    if 0 <= i < b.len() && is_digit(b[i]) { digit_run_end(b, i + 1) } else { i }
}

/// Where the run of symbol bytes starting at `i` ends.
pub open spec fn symbol_run_end(b: Seq<u8>, i: int) -> int
    decreases b.len() - i,
{
    if is_symbol_at(b, i) { symbol_run_end(b, i + 1) } else { i }
}

/// Where the groups of `/` followed by alphanumerics starting at `i` end.
pub open spec fn slash_groups_end(b: Seq<u8>, i: int) -> int
    decreases b.len() - i,
{
    if 0 <= i && i + 1 < b.len() && b[i] == 47 && is_alnum(b[i + 1]) {
        proof {
            lemma_alnum_run_end_bounds(b, i + 1);
        }
        slash_groups_end(b, alnum_run_end(b, i + 1))
    } else {
        i
    }
}

/// Where the token starting at `s` ends, by the first grammar alternative
/// that matches there.
pub open spec fn match_end(b: Seq<u8>, s: int) -> int {
    if 0 <= s < b.len() && is_alnum(b[s]) {
        let a = alnum_run_end(b, s);
        let g = slash_groups_end(b, a);
        if g > a {
            g
        } else if is_letter(b[s]) {
            letter_run_end(b, s)
        } else {
            digit_run_end(b, s)
        }
    } else {
        symbol_run_end(b, s)
    }
}

/// The first position at or after `i` that does not start whitespace.
pub open spec fn skip_ws(b: Seq<u8>, i: int) -> int
    decreases b.len() - i,
{
    if 0 <= i < b.len() && ws_len(b, i) > 0 { skip_ws(b, i + ws_len(b, i)) } else { i }
}

/// The byte spans of the tokens found from position `i` on.
pub open spec fn lex_spans(b: Seq<u8>, i: int) -> Seq<(int, int)>
    decreases b.len() - i,
{
    if i < 0 || i >= b.len() {
        seq![]
    } else {
        let s = skip_ws(b, i);
        if s >= b.len() || match_end(b, s) <= i {
            seq![]
        } else {
            proof {
                lemma_skip_ws_bounds(b, i);
                lemma_match_end_bounds(b, s);
            }
            seq![(s, match_end(b, s))] + lex_spans(b, match_end(b, s))
        }
    }
}

/// An alphanumeric run stays within the text.
pub proof fn lemma_alnum_run_end_bounds(b: Seq<u8>, i: int)
    requires
        0 <= i <= b.len(),
    ensures
        i <= alnum_run_end(b, i) <= b.len(),
        forall|k: int| i <= k < alnum_run_end(b, i) ==> is_alnum(#[trigger] b[k]),
        alnum_run_end(b, i) < b.len() ==> !is_alnum(b[alnum_run_end(b, i)]),
    decreases b.len() - i,
{
    if i < b.len() && is_alnum(b[i]) {
        lemma_alnum_run_end_bounds(b, i + 1);
    }
}

/// A letter run stays within the text.
pub proof fn lemma_letter_run_end_bounds(b: Seq<u8>, i: int)
    requires
        0 <= i <= b.len(),
    ensures
        i <= letter_run_end(b, i) <= b.len(),
        forall|k: int| i <= k < letter_run_end(b, i) ==> is_letter(#[trigger] b[k]),
        letter_run_end(b, i) < b.len() ==> !is_letter(b[letter_run_end(b, i)]),
    decreases b.len() - i,
{
    if i < b.len() && is_letter(b[i]) {
        lemma_letter_run_end_bounds(b, i + 1);
    }
}

/// A digit run stays within the text.
pub proof fn lemma_digit_run_end_bounds(b: Seq<u8>, i: int)
    requires
        0 <= i <= b.len(),
    ensures
        i <= digit_run_end(b, i) <= b.len(),
        forall|k: int| i <= k < digit_run_end(b, i) ==> is_digit(#[trigger] b[k]),
        digit_run_end(b, i) < b.len() ==> !is_digit(b[digit_run_end(b, i)]),
    decreases b.len() - i,
{
    if i < b.len() && is_digit(b[i]) {
        lemma_digit_run_end_bounds(b, i + 1);
    }
}

/// A symbol run stays within the text.
pub proof fn lemma_symbol_run_end_bounds(b: Seq<u8>, i: int)
    requires
        0 <= i <= b.len(),
    ensures
        i <= symbol_run_end(b, i) <= b.len(),
        forall|k: int| i <= k < symbol_run_end(b, i) ==> #[trigger] is_symbol_at(b, k),
        !is_symbol_at(b, symbol_run_end(b, i)),
    decreases b.len() - i,
{
    if is_symbol_at(b, i) {
        lemma_symbol_run_end_bounds(b, i + 1);
    }
}

/// Slash groups stay within the text, and what they cover ends with an
/// alphanumeric whenever they cover anything.
pub proof fn lemma_slash_groups_end_bounds(b: Seq<u8>, i: int)
    requires
        0 <= i <= b.len(),
    ensures
        i <= slash_groups_end(b, i) <= b.len(),
        slash_groups_end(b, i) > i ==> is_alnum(b[slash_groups_end(b, i) - 1]),
    decreases b.len() - i,
{
    if 0 <= i && i + 1 < b.len() && b[i] == 47 && is_alnum(b[i + 1]) {
        lemma_alnum_run_end_bounds(b, i + 1);
        lemma_slash_groups_end_bounds(b, alnum_run_end(b, i + 1));
        if slash_groups_end(b, alnum_run_end(b, i + 1)) == alnum_run_end(b, i + 1) {
            assert(is_alnum(b[alnum_run_end(b, i + 1) - 1]));
        }
    }
}

/// Skipping whitespace stays within the text.
pub proof fn lemma_skip_ws_bounds(b: Seq<u8>, i: int)
    requires
        0 <= i <= b.len(),
    ensures
        i <= skip_ws(b, i) <= b.len(),
        skip_ws(b, i) < b.len() ==> ws_len(b, skip_ws(b, i)) == 0,
    decreases b.len() - i,
{
    if 0 <= i < b.len() && ws_len(b, i) > 0 {
        lemma_skip_ws_bounds(b, i + ws_len(b, i));
    }
}

/// A token that starts on a non-whitespace byte covers at least that byte
/// and stays within the text.
pub proof fn lemma_match_end_bounds(b: Seq<u8>, s: int)
    requires
        0 <= s <= b.len(),
    ensures
        s <= match_end(b, s) <= b.len(),
        s < b.len() && ws_len(b, s) == 0 ==> s < match_end(b, s),
{
    lemma_symbol_run_end_bounds(b, s);
    if s < b.len() && is_alnum(b[s]) {
        lemma_alnum_run_end_bounds(b, s);
        lemma_slash_groups_end_bounds(b, alnum_run_end(b, s));
        lemma_letter_run_end_bounds(b, s);
        lemma_digit_run_end_bounds(b, s);
    }
}

/// Token spans lie in order within the text, cover at least one byte each,
/// and start and end on character boundaries.
pub open spec fn spans_well_placed(b: Seq<u8>, spans: Seq<(int, int)>, lo: int) -> bool {
    &&& forall|k: int| 0 <= k < spans.len() ==> lo <= (#[trigger] spans[k]).0 < spans[k].1 <= b.len()
    &&& forall|k: int| 0 <= k < spans.len() ==> is_char_boundary(b, (#[trigger] spans[k]).0)
        && is_char_boundary(b, spans[k].1)
    &&& forall|k: int, j: int| 0 <= k < j < spans.len() ==> (#[trigger] spans[k]).1 <= (#[trigger] spans[j]).0
}

/// Skipping whitespace from a character boundary lands on one.
pub proof fn lemma_skip_ws_boundary(b: Seq<u8>, i: int)
    requires
        valid_utf8(b),
        0 <= i <= b.len(),
        is_char_boundary(b, i),
    ensures
        is_char_boundary(b, skip_ws(b, i)),
    decreases b.len() - i,
{
    if 0 <= i < b.len() && ws_len(b, i) > 0 {
        lemma_boundary_step(b, i, ws_len(b, i));
        lemma_skip_ws_boundary(b, i + ws_len(b, i));
    }
}

/// A token that starts on a non-whitespace byte ends on a character boundary.
pub proof fn lemma_match_end_boundary(b: Seq<u8>, s: int)
    requires
        valid_utf8(b),
        0 <= s < b.len(),
        ws_len(b, s) == 0,
    ensures
        is_char_boundary(b, match_end(b, s)),
{
    lemma_match_end_bounds(b, s);
    let e = match_end(b, s);
    if is_alnum(b[s]) {
        lemma_alnum_run_end_bounds(b, s);
        let a = alnum_run_end(b, s);
        lemma_slash_groups_end_bounds(b, a);
        lemma_letter_run_end_bounds(b, s);
        lemma_digit_run_end_bounds(b, s);
        if slash_groups_end(b, a) > a {
        } else if is_letter(b[s]) {
            assert(is_letter(b[e - 1]));
        } else {
            assert(is_digit(b[e - 1]));
        }
        assert(b[e - 1] < 0x80);
        lemma_boundary_after_ascii(b, e);
    } else {
        lemma_symbol_run_end_bounds(b, s);
        lemma_boundary_iff(b, e);
    }
}

/// The token spans found from a character boundary are well placed.
pub proof fn lemma_lex_spans_placed(b: Seq<u8>, i: int)
    requires
        valid_utf8(b),
        0 <= i <= b.len(),
        is_char_boundary(b, i),
    ensures
        spans_well_placed(b, lex_spans(b, i), i),
    decreases b.len() - i,
{
    if i < b.len() {
        let s = skip_ws(b, i);
        lemma_skip_ws_bounds(b, i);
        if s < b.len() {
            lemma_match_end_bounds(b, s);
            let e = match_end(b, s);
            lemma_skip_ws_boundary(b, i);
            lemma_match_end_boundary(b, s);
            lemma_lex_spans_placed(b, e);
            let rest = lex_spans(b, e);
            let all = lex_spans(b, i);
            assert(all == seq![(s, e)] + rest);
            assert forall|k: int, j: int| 0 <= k < j < all.len() implies (#[trigger] all[k]).1 <= (#[trigger] all[j]).0 by {
                if k == 0 {
                    assert(all[j] == rest[j - 1]);
                } else {
                    assert(all[k] == rest[k - 1]);
                    assert(all[j] == rest[j - 1]);
                }
            }
            assert forall|k: int| 0 <= k < all.len() implies i <= (#[trigger] all[k]).0 < all[k].1 <= b.len() by {
                if k > 0 {
                    assert(all[k] == rest[k - 1]);
                }
            }
            assert forall|k: int| 0 <= k < all.len() implies is_char_boundary(b, (#[trigger] all[k]).0)
                && is_char_boundary(b, all[k].1) by {
                if k > 0 {
                    assert(all[k] == rest[k - 1]);
                }
            }
        }
    }
}

// ---------------------------------------------------------------------------
// Scanning the grammar.

fn is_letter_byte(c: u8) -> (r: bool)
    ensures
        r == is_letter(c),
{
    (65 <= c && c <= 90) || (97 <= c && c <= 122)
}

fn is_digit_byte(c: u8) -> (r: bool)
    ensures
        r == is_digit(c),
{
    48 <= c && c <= 57
}

fn is_alnum_byte(c: u8) -> (r: bool)
    ensures
        r == is_alnum(c),
{
    is_letter_byte(c) || is_digit_byte(c)
}

/// The byte length of the whitespace character at `i`, 0 when none.
pub(crate) fn ws_len_at(b: &[u8], i: usize) -> (n: usize)
    ensures
        n as int == ws_len(b@, i as int),
{
    let len = b.len();
    if i >= len {
        return 0;
    }
    let c = b[i];
    if (9 <= c && c <= 13) || c == 32 {
        1
    } else if c == 0xC2 && i + 1 < len && (b[i + 1] == 0x85 || b[i + 1] == 0xA0) {
        2
    } else if len - i > 2 {
        let c1 = b[i + 1];
        let c2 = b[i + 2];
        if (c == 0xE1 && c1 == 0x9A && c2 == 0x80)
            || (c == 0xE2 && c1 == 0x80 && ((0x80 <= c2 && c2 <= 0x8A) || c2 == 0xA8 || c2 == 0xA9
            || c2 == 0xAF))
            || (c == 0xE2 && c1 == 0x81 && c2 == 0x9F)
            || (c == 0xE3 && c1 == 0x80 && c2 == 0x80) {
            3
        } else {
            0
        }
    } else {
        0
    }
}

fn alnum_run_end_at(b: &[u8], i: usize) -> (e: usize)
    requires
        i <= b@.len(),
    ensures
        e as int == alnum_run_end(b@, i as int),
{
    let mut j = i;
    while j < b.len() && is_alnum_byte(b[j])
        invariant
            i <= j <= b@.len(),
            alnum_run_end(b@, i as int) == alnum_run_end(b@, j as int),
        decreases b@.len() - j,
    {
        j = j + 1;
    }
    j
}

fn letter_run_end_at(b: &[u8], i: usize) -> (e: usize)
    requires
        i <= b@.len(),
    ensures
        e as int == letter_run_end(b@, i as int),
{
    let mut j = i;
    while j < b.len() && is_letter_byte(b[j])
        invariant
            i <= j <= b@.len(),
            letter_run_end(b@, i as int) == letter_run_end(b@, j as int),
        decreases b@.len() - j,
    {
        j = j + 1;
    }
    j
}

fn digit_run_end_at(b: &[u8], i: usize) -> (e: usize)
    requires
        i <= b@.len(),
    ensures
        e as int == digit_run_end(b@, i as int),
{
    let mut j = i;
    while j < b.len() && is_digit_byte(b[j])
        invariant
            i <= j <= b@.len(),
            digit_run_end(b@, i as int) == digit_run_end(b@, j as int),
        decreases b@.len() - j,
    {
        j = j + 1;
    }
    j
}

fn symbol_run_end_at(b: &[u8], i: usize) -> (e: usize)
    requires
        i <= b@.len(),
    ensures
        e as int == symbol_run_end(b@, i as int),
{
    let mut j = i;
    while j < b.len() && !is_alnum_byte(b[j]) && ws_len_at(b, j) == 0
        invariant
            i <= j <= b@.len(),
            symbol_run_end(b@, i as int) == symbol_run_end(b@, j as int),
        decreases b@.len() - j,
    {
        j = j + 1;
    }
    j
}

fn slash_groups_end_at(b: &[u8], i: usize) -> (e: usize)
    requires
        i <= b@.len(),
    ensures
        e as int == slash_groups_end(b@, i as int),
{
    let mut j = i;
    while b.len() - j > 1 && b[j] == 47 && is_alnum_byte(b[j + 1])
        invariant
            i <= j <= b@.len(),
            slash_groups_end(b@, i as int) == slash_groups_end(b@, j as int),
        decreases b@.len() - j,
    {
        proof {
            lemma_alnum_run_end_bounds(b@, j + 1);
        }
        j = alnum_run_end_at(b, j + 1);
    }
    j
}

fn match_end_at(b: &[u8], s: usize) -> (e: usize)
    requires
        s <= b@.len(),
    ensures
        e as int == match_end(b@, s as int),
{
    if s < b.len() && is_alnum_byte(b[s]) {
        proof {
            lemma_alnum_run_end_bounds(b@, s as int);
        }
        let a = alnum_run_end_at(b, s);
        let g = slash_groups_end_at(b, a);
        if g > a {
            g
        } else if is_letter_byte(b[s]) {
            letter_run_end_at(b, s)
        } else {
            digit_run_end_at(b, s)
        }
    } else {
        symbol_run_end_at(b, s)
    }
}

pub(crate) fn skip_ws_at(b: &[u8], i: usize) -> (e: usize)
    requires
        i <= b@.len(),
    ensures
        e as int == skip_ws(b@, i as int),
{
    let mut j = i;
    loop
        invariant
            i <= j <= b@.len(),
            skip_ws(b@, i as int) == skip_ws(b@, j as int),
        decreases b@.len() - j,
    {
        let w = ws_len_at(b, j);
        if j >= b.len() || w == 0 {
            return j;
        }
        proof {
            assert(ws_len(b@, j as int) <= 3);
        }
        j = j + w;
    }
}

// ---------------------------------------------------------------------------
// Tokens.

/// The kinds of token the grammar produces.
#[derive(Debug, Clone, Copy, PartialEq, Eq, Structural)]
pub enum TokenType {
    /// An alphabetical word.
    Word,
    /// A number.
    Number,
    /// Punctuation and other symbols.
    Punctuation,
    /// An acronym or slash-delimited abbreviation such as `HTML/CSS`.
    Acronym,
}

/// A span of byte offsets into a text: `start_pos` inclusive, `end_pos`
/// exclusive.
#[derive(Debug, Clone, Copy, PartialEq, Eq, Structural)]
pub struct CharInterval {
    /// First byte of the span.
    pub start_pos: usize,
    /// One past the last byte of the span.
    pub end_pos: usize,
}

impl CharInterval {
    /// A span from `start_pos` to `end_pos`.
    pub fn new(start_pos: usize, end_pos: usize) -> (r: Self)
        ensures
            r.start_pos == start_pos,
            r.end_pos == end_pos,
    {
        CharInterval { start_pos, end_pos }
    }

    /// The length of the span, 0 when it is reversed.
    pub fn length(&self) -> (n: usize)
        ensures
            n == (if self.end_pos >= self.start_pos { (self.end_pos - self.start_pos) as usize } else { 0usize }),
    {
        self.end_pos.saturating_sub(self.start_pos)
    }
}

/// A span of token positions: `start_index` inclusive, `end_index` exclusive.
#[derive(Debug, Clone, Copy, PartialEq, Eq, Structural)]
pub struct TokenInterval {
    /// The first token of the span.
    pub start_index: usize,
    /// One past the last token of the span.
    pub end_index: usize,
}

/// The text `Start index {start} must be < end index {end}`.
pub open spec fn interval_order_message(start: nat, end: nat) -> Seq<char> {
    "Start index "@ + decimal(start) + " must be < end index "@ + decimal(end)
}

impl TokenInterval {
    /// A non-empty span of tokens; an empty or reversed one is refused.
    pub fn new(start_index: usize, end_index: usize) -> (r: LangExtractResult<Self>)
        ensures
            start_index < end_index ==> r == Ok::<TokenInterval, LangExtractError>(
                TokenInterval { start_index, end_index },
            ),
            start_index >= end_index ==> (r matches Err(LangExtractError::InvalidInput(m))
                && m@ == interval_order_message(start_index as nat, end_index as nat)),
    {
        if start_index >= end_index {
            let mut m = String::new();
            push_str(&mut m, "Start index ");
            let a = decimal_string(start_index);
            push_str(&mut m, a.as_str());
            push_str(&mut m, " must be < end index ");
            let b = decimal_string(end_index);
            push_str(&mut m, b.as_str());
            proof {
                assert(m@ =~= interval_order_message(start_index as nat, end_index as nat));
            }
            return Err(LangExtractError::InvalidInput(m));
        }
        Ok(TokenInterval { start_index, end_index })
    }
}

/// One token of a text.
#[derive(Debug, Clone, Copy, PartialEq, Eq, Structural)]
pub struct Token {
    /// The token's position in the sequence of tokens.
    pub index: usize,
    /// The token's kind.
    pub token_type: TokenType,
    /// The bytes of the text the token covers.
    pub char_interval: CharInterval,
    /// Whether a newline or carriage return lies between this token and the
    /// one before it.
    pub first_token_after_newline: bool,
}

impl Token {
    /// A token with the given fields.
    pub fn new(
        index: usize,
        token_type: TokenType,
        char_interval: CharInterval,
        first_token_after_newline: bool,
    ) -> (t: Self)
        ensures
            t == (Token { index, token_type, char_interval, first_token_after_newline }),
    {
        Token { index, token_type, char_interval, first_token_after_newline }
    }
}

/// A text together with its tokens.
#[derive(Debug, Clone)]
pub struct TokenizedText {
    /// The text that was tokenized.
    pub text: String,
    /// The tokens of the text, in order.
    pub tokens: Vec<Token>,
}

impl TokenizedText {
    /// A text with no tokens yet.
    pub fn new(text: String) -> (t: Self)
        ensures
            t.text == text,
            t.tokens@.len() == 0,
    {
        TokenizedText { text, tokens: Vec::new() }
    }

    /// The number of tokens.
    pub fn len(&self) -> (n: usize)
        ensures
            n == self.tokens@.len(),
    {
        self.tokens.len()
    }

    /// Whether there are no tokens.
    pub fn is_empty(&self) -> (b: bool)
        ensures
            b == (self.tokens@.len() == 0),
    {
        self.tokens.len() == 0
    }

    /// The tokens are exactly those the grammar finds in the text.
    pub open spec fn wf(&self) -> bool {
        self.tokens@ == spec_tokens(encode_utf8(self.text@))
    }
}

/// The token contains a digit.
pub open spec fn has_digit(t: Seq<u8>) -> bool {
    exists|k: int| 0 <= k < t.len() && is_digit(#[trigger] t[k])
}

/// The token contains an alphanumeric, a slash, and another alphanumeric in
/// a row.
pub open spec fn has_slash_abbrev(t: Seq<u8>) -> bool {
    exists|k: int| 0 < k && k + 1 < t.len() && #[trigger] t[k] == 47 && is_alnum(t[k - 1]) && is_alnum(t[k + 1])
}

/// The token is made only of letters or only of digits.
pub open spec fn is_word_text(t: Seq<u8>) -> bool {
    t.len() > 0 && ((forall|k: int| 0 <= k < t.len() ==> is_letter(#[trigger] t[k]))
        || (forall|k: int| 0 <= k < t.len() ==> is_digit(#[trigger] t[k])))
}

/// The kind of a token with the given bytes: a number if it holds a digit,
/// else an acronym if it holds a slash abbreviation, else a word if it is
/// all letters, else punctuation.
pub open spec fn classify(t: Seq<u8>) -> TokenType {
    if has_digit(t) {
        TokenType::Number
    } else if has_slash_abbrev(t) {
        TokenType::Acronym
    } else if is_word_text(t) {
        TokenType::Word
    } else {
        TokenType::Punctuation
    }
}

/// The bytes from `a` to `c` hold a newline or carriage return.
pub open spec fn gap_has_line_break(b: Seq<u8>, a: int, c: int) -> bool {
    exists|k: int| a <= k < c && (#[trigger] b[k] == 10 || b[k] == 13)
}

/// The `k`th token of a text whose token spans are `spans`.
pub open spec fn spec_token(b: Seq<u8>, spans: Seq<(int, int)>, k: int) -> Token {
    Token {
        index: k as usize,
        token_type: classify(b.subrange(spans[k].0, spans[k].1)),
        char_interval: CharInterval { start_pos: spans[k].0 as usize, end_pos: spans[k].1 as usize },
        first_token_after_newline: k > 0 && gap_has_line_break(b, spans[k - 1].1, spans[k].0),
    }
}

/// The tokens of a text.
pub open spec fn spec_tokens(b: Seq<u8>) -> Seq<Token> {
    Seq::new(lex_spans(b, 0).len(), |k: int| spec_token(b, lex_spans(b, 0), k))
}

fn classify_bytes(b: &[u8], s: usize, e: usize) -> (t: TokenType)
    requires
        s <= e <= b@.len(),
    ensures
        t == classify(b@.subrange(s as int, e as int)),
{
    let ghost t = b@.subrange(s as int, e as int);
    let mut has_d = false;
    let mut has_slash = false;
    let mut all_letters = true;
    let mut all_digits = true;
    let mut k = s;
    while k < e
        invariant
            s <= k <= e <= b@.len(),
            t == b@.subrange(s as int, e as int),
            has_d == exists|j: int| 0 <= j < k - s && is_digit(#[trigger] t[j]),
            has_slash == exists|j: int| 0 < j && j + 1 < t.len() && j < k - s && #[trigger] t[j] == 47
                && is_alnum(t[j - 1]) && is_alnum(t[j + 1]),
            all_letters == forall|j: int| 0 <= j < k - s ==> is_letter(#[trigger] t[j]),
            all_digits == forall|j: int| 0 <= j < k - s ==> is_digit(#[trigger] t[j]),
        decreases e - k,
    {
        let c = b[k];
        assert(t[k - s] == c);
        if is_digit_byte(c) {
            has_d = true;
        }
        if c == 47 && k > s && k + 1 < e && is_alnum_byte(b[k - 1]) && is_alnum_byte(b[k + 1]) {
            assert(t[k - s - 1] == b@[k - 1]);
            assert(t[k - s + 1] == b@[k + 1]);
            has_slash = true;
        }
        if !is_letter_byte(c) {
            all_letters = false;
        }
        if !is_digit_byte(c) {
            all_digits = false;
        }
        k = k + 1;
        proof {
            if has_slash {
                if !(exists|j: int| 0 < j && j + 1 < t.len() && j < k - 1 - s && #[trigger] t[j] == 47
                    && is_alnum(t[j - 1]) && is_alnum(t[j + 1])) {
                    let j = (k - 1 - s) as int;
                    assert(t[j] == 47 && is_alnum(t[j - 1]) && is_alnum(t[j + 1]));
                }
            }
        }
    }
    if has_d {
        TokenType::Number
    } else if has_slash {
        TokenType::Acronym
    } else if e > s && (all_letters || all_digits) {
        TokenType::Word
    } else {
        TokenType::Punctuation
    }
}

fn contains_newline(b: &[u8], a: usize, c: usize) -> (r: bool)
    requires
        a <= c <= b@.len(),
    ensures
        r == exists|k: int| a <= k < c && #[trigger] b@[k] == 10,
{
    let mut k = a;
    while k < c
        invariant
            a <= k <= c <= b@.len(),
            forall|j: int| a <= j < k ==> b@[j] != 10,
        decreases c - k,
    {
        if b[k] == 10 {
            return true;
        }
        k = k + 1;
    }
    false
}

fn gap_has_line_break_at(b: &[u8], a: usize, c: usize) -> (r: bool)
    requires
        a <= c <= b@.len(),
    ensures
        r == gap_has_line_break(b@, a as int, c as int),
{
    let mut k = a;
    while k < c
        invariant
            a <= k <= c <= b@.len(),
            !gap_has_line_break(b@, a as int, k as int),
        decreases c - k,
    {
        if b[k] == 10 || b[k] == 13 {
            return true;
        }
        k = k + 1;
    }
    false
}

/// Every token's span lies within the text and starts and ends on
/// character boundaries.
pub open spec fn tokens_in_text(b: Seq<u8>, tokens: Seq<Token>) -> bool {
    forall|k: int| 0 <= k < tokens.len() ==> {
        let ci = (#[trigger] tokens[k]).char_interval;
        &&& ci.start_pos <= ci.end_pos <= b.len()
        &&& is_char_boundary(b, ci.start_pos as int)
        &&& is_char_boundary(b, ci.end_pos as int)
    }
}

/// Tokens lie within the text, each covers at least one byte, and they come
/// in text order.
pub open spec fn tokens_ordered(b: Seq<u8>, tokens: Seq<Token>) -> bool {
    &&& tokens_in_text(b, tokens)
    &&& forall|k: int| 0 <= k < tokens.len() ==> (#[trigger] tokens[k]).char_interval.start_pos < tokens[k].char_interval.end_pos
    &&& forall|k: int, j: int| 0 <= k < j < tokens.len() ==> (#[trigger] tokens[k]).char_interval.end_pos
        <= (#[trigger] tokens[j]).char_interval.start_pos
}

/// The stretch a span of tokens covers can be cut out of the text: when the
/// span is non-empty and within the tokens, its first token starts no later
/// than its last token ends, that end is within the text, and both lie on
/// character boundaries.
pub open spec fn interval_sliceable(b: Seq<u8>, tokens: Seq<Token>, iv: TokenInterval) -> bool {
    iv.start_index < iv.end_index <= tokens.len() ==> {
        let s = tokens[iv.start_index as int].char_interval.start_pos as int;
        let e = tokens[iv.end_index - 1].char_interval.end_pos as int;
        &&& s <= e <= b.len()
        &&& is_char_boundary(b, s)
        &&& is_char_boundary(b, e)
    }
}

/// Any span of tokens that lie in the text in order can be cut out of it.
pub proof fn lemma_ordered_sliceable(b: Seq<u8>, tokens: Seq<Token>, iv: TokenInterval)
    requires
        tokens_ordered(b, tokens),
    ensures
        interval_sliceable(b, tokens, iv),
{
    if iv.start_index < iv.end_index <= tokens.len() {
        let a = iv.start_index as int;
        let z = iv.end_index - 1;
        assert(tokens[a].char_interval.start_pos < tokens[a].char_interval.end_pos);
        if a < z {
            assert(tokens[a].char_interval.end_pos <= tokens[z].char_interval.start_pos);
        }
        assert(tokens[z].char_interval.start_pos < tokens[z].char_interval.end_pos);
    }
}

/// The tokens the grammar finds are in the text, non-empty and in order.
pub proof fn lemma_spec_tokens_ordered(b: Seq<u8>)
    requires
        valid_utf8(b),
        b.len() <= usize::MAX,
    ensures
        tokens_ordered(b, spec_tokens(b)),
{
    is_char_boundary_start_end_of_seq(b);
    lemma_lex_spans_placed(b, 0);
    let spans = lex_spans(b, 0);
    let toks = spec_tokens(b);
    assert forall|k: int| 0 <= k < toks.len() implies {
        let ci = (#[trigger] toks[k]).char_interval;
        &&& ci.start_pos <= ci.end_pos <= b.len()
        &&& is_char_boundary(b, ci.start_pos as int)
        &&& is_char_boundary(b, ci.end_pos as int)
    } by {
        assert(toks[k] == spec_token(b, spans, k));
        assert(0 <= spans[k].0 < spans[k].1 <= b.len());
    }
    assert forall|k: int| 0 <= k < toks.len() implies (#[trigger] toks[k]).char_interval.start_pos
        < toks[k].char_interval.end_pos by {
        assert(toks[k] == spec_token(b, spans, k));
        assert(0 <= spans[k].0 < spans[k].1 <= b.len());
    }
    assert forall|k: int, j: int| 0 <= k < j < toks.len() implies (#[trigger] toks[k]).char_interval.end_pos
        <= (#[trigger] toks[j]).char_interval.start_pos by {
        assert(toks[k] == spec_token(b, spans, k));
        assert(toks[j] == spec_token(b, spans, j));
        assert(spans[k].1 <= spans[j].0);
        assert(0 <= spans[k].0 < spans[k].1 <= b.len());
        assert(0 <= spans[j].0 < spans[j].1 <= b.len());
    }
}

/// The bytes a token covers.
pub open spec fn token_bytes(b: Seq<u8>, t: Token) -> Seq<u8> {
    b.subrange(t.char_interval.start_pos as int, t.char_interval.end_pos as int)
}

/// What reading the text of the token span `iv` gives: an error for an
/// empty or reversed span, an error for a span past the last token, and
/// otherwise the text from the start of its first token to the end of its
/// last.
pub open spec fn tokens_text_outcome(b: Seq<u8>, toks: Seq<Token>, iv: TokenInterval, r: LangExtractResult<String>) -> bool {
    if iv.start_index >= iv.end_index {
        r matches Err(LangExtractError::InvalidInput(m)) && m@ == invalid_interval_message(
            iv.start_index as nat,
            iv.end_index as nat,
        )
    } else if iv.end_index > toks.len() {
        r matches Err(LangExtractError::InvalidInput(m)) && m@ == interval_exceeds_message(
            iv.end_index as nat,
            toks.len(),
        )
    } else {
        r matches Ok(s) && encode_utf8(s@) == b.subrange(
            toks[iv.start_index as int].char_interval.start_pos as int,
            toks[iv.end_index - 1].char_interval.end_pos as int,
        )
    }
}

/// The text `Invalid token interval: start_index={start}, end_index={end}`.
pub open spec fn invalid_interval_message(start: nat, end: nat) -> Seq<char> {
    "Invalid token interval: start_index="@ + decimal(start) + ", end_index="@ + decimal(end)
}

/// The text `Token interval end_index {end} exceeds token count {count}`.
pub open spec fn interval_exceeds_message(end: nat, count: nat) -> Seq<char> {
    "Token interval end_index "@ + decimal(end) + " exceeds token count "@ + decimal(count)
}

/// The text `start_token_index {start} out of range. Total tokens: {count}`.
pub open spec fn sentence_start_message(start: nat, count: nat) -> Seq<char> {
    "start_token_index "@ + decimal(start) + " out of range. Total tokens: "@ + decimal(count)
}

// ---------------------------------------------------------------------------
// Sentences.

/// The known abbreviations, whose final period does not end a sentence.
pub open spec fn abbreviations() -> Seq<Seq<u8>> {
    seq![
        seq![77u8, 114, 46],                  // Mr.
        seq![77u8, 114, 115, 46],             // Mrs.
        seq![77u8, 115, 46],                  // Ms.
        seq![68u8, 114, 46],                  // Dr.
        seq![80u8, 114, 111, 102, 46],        // Prof.
        seq![83u8, 116, 46],                  // St.
        seq![65u8, 118, 101, 46],             // Ave.
        seq![66u8, 108, 118, 100, 46],        // Blvd.
        seq![82u8, 100, 46],                  // Rd.
        seq![76u8, 116, 100, 46],             // Ltd.
        seq![73u8, 110, 99, 46],              // Inc.
        seq![67u8, 111, 114, 112, 46],        // Corp.
        seq![118u8, 115, 46],                 // vs.
        seq![101u8, 116, 99, 46],             // etc.
        seq![101u8, 116, 32, 97, 108, 46],    // et al.
        seq![105u8, 46, 101, 46],             // i.e.
        seq![101u8, 46, 103, 46],             // e.g.
        seq![99u8, 102, 46],                  // cf.
        seq![97u8, 46, 109, 46],              // a.m.
        seq![112u8, 46, 109, 46],             // p.m.
        seq![85u8, 46, 83, 46],               // U.S.
        seq![85u8, 46, 75, 46],               // U.K.
        seq![80u8, 104, 46, 68, 46],          // Ph.D.
    ]
}

fn abbreviation_at(i: usize) -> (v: Vec<u8>)
    requires
        i < 23,
    ensures
        v@ == abbreviations()[i as int],
{
    let v: Vec<u8> = if i == 0 { vec![77u8, 114, 46] }
    else if i == 1 { vec![77u8, 114, 115, 46] }
    else if i == 2 { vec![77u8, 115, 46] }
    else if i == 3 { vec![68u8, 114, 46] }
    else if i == 4 { vec![80u8, 114, 111, 102, 46] }
    else if i == 5 { vec![83u8, 116, 46] }
    else if i == 6 { vec![65u8, 118, 101, 46] }
    else if i == 7 { vec![66u8, 108, 118, 100, 46] }
    else if i == 8 { vec![82u8, 100, 46] }
    else if i == 9 { vec![76u8, 116, 100, 46] }
    else if i == 10 { vec![73u8, 110, 99, 46] }
    else if i == 11 { vec![67u8, 111, 114, 112, 46] }
    else if i == 12 { vec![118u8, 115, 46] }
    else if i == 13 { vec![101u8, 116, 99, 46] }
    else if i == 14 { vec![101u8, 116, 32, 97, 108, 46] }
    else if i == 15 { vec![105u8, 46, 101, 46] }
    else if i == 16 { vec![101u8, 46, 103, 46] }
    else if i == 17 { vec![99u8, 102, 46] }
    else if i == 18 { vec![97u8, 46, 109, 46] }
    else if i == 19 { vec![112u8, 46, 109, 46] }
    else if i == 20 { vec![85u8, 46, 83, 46] }
    else if i == 21 { vec![85u8, 46, 75, 46] }
    else { vec![80u8, 104, 46, 68, 46] };
    proof {
        assert(v@ =~= abbreviations()[i as int]);
    }
    v
}

/// The bytes end with `.`, `?` or `!`.
pub open spec fn ends_with_terminal(t: Seq<u8>) -> bool {
    t.len() > 0 && (t.last() == 46 || t.last() == 63 || t.last() == 33)
}

/// The token at `idx` ends a sentence: it ends with `.`, `?` or `!` and,
/// together with the token before it, does not spell a known abbreviation.
pub open spec fn spec_end_of_sentence(b: Seq<u8>, tokens: Seq<Token>, idx: int) -> bool {
    &&& 0 <= idx < tokens.len()
    &&& ends_with_terminal(token_bytes(b, tokens[idx]))
    &&& !(idx > 0 && abbreviations().contains(token_bytes(b, tokens[idx - 1]) + token_bytes(b, tokens[idx])))
}

/// Whether `c` has the Unicode Uppercase property, as std's
/// `char::is_uppercase` reports it.
pub uninterp spec fn char_is_uppercase(c: char) -> bool;

/// std's `char::is_uppercase`: whether `c` has the Unicode Uppercase
/// property. Stated: the result is [`char_is_uppercase`] of `c`, and for
/// ASCII letters it is true exactly for `A` to `Z`, as the documentation
/// gives it.
#[verifier::external_body]
fn is_uppercase(c: char) -> (r: bool)
    ensures
        r == char_is_uppercase(c),
        ('A' <= c <= 'Z') ==> r,
        ('a' <= c <= 'z') ==> !r,
{
    c.is_uppercase()
}

/// A newline lies between the token at `idx` and the next one, and the next
/// one starts with an uppercase character.
pub open spec fn spec_break_after_newline(b: Seq<u8>, tokens: Seq<Token>, idx: int) -> bool {
    &&& 0 <= idx && idx + 1 < tokens.len()
    &&& tokens[idx].char_interval.end_pos < tokens[idx + 1].char_interval.start_pos
    &&& exists|k: int| tokens[idx].char_interval.end_pos <= k < tokens[idx + 1].char_interval.start_pos
        && #[trigger] b[k] == 10
    &&& token_bytes(b, tokens[idx + 1]).len() > 0
    &&& char_is_uppercase(decode_utf8(token_bytes(b, tokens[idx + 1]))[0])
}

/// The token at `i` closes a sentence.
pub open spec fn ends_sentence(b: Seq<u8>, tokens: Seq<Token>, i: int) -> bool {
    (tokens[i].token_type == TokenType::Punctuation && spec_end_of_sentence(b, tokens, i))
        || spec_break_after_newline(b, tokens, i)
}

/// One past the token that closes the sentence containing token `i`, or
/// the number of tokens when no token from `i` on closes one.
pub open spec fn sentence_end_from(b: Seq<u8>, tokens: Seq<Token>, i: int) -> int
    decreases tokens.len() - i,
{
    if i < 0 || i >= tokens.len() {
        tokens.len() as int
    } else if ends_sentence(b, tokens, i) {
        i + 1
    } else {
        sentence_end_from(b, tokens, i + 1)
    }
}

/// A sentence that starts at a token ends after it and within the text.
pub proof fn lemma_sentence_end_bounds(b: Seq<u8>, tokens: Seq<Token>, i: int)
    requires
        0 <= i < tokens.len(),
    ensures
        i < sentence_end_from(b, tokens, i) <= tokens.len(),
    decreases tokens.len() - i,
{
    if !ends_sentence(b, tokens, i) {
        if i + 1 < tokens.len() {
            lemma_sentence_end_bounds(b, tokens, i + 1);
        } else {
            assert(sentence_end_from(b, tokens, i + 1) == tokens.len());
        }
    }
}

fn bytes_equal_concat(b: &[u8], p0: usize, p1: usize, c0: usize, c1: usize, a: &Vec<u8>) -> (r: bool)
    requires
        p0 <= p1 <= b@.len(),
        c0 <= c1 <= b@.len(),
    ensures
        r == (b@.subrange(p0 as int, p1 as int) + b@.subrange(c0 as int, c1 as int) == a@),
{
    let ghost joined = b@.subrange(p0 as int, p1 as int) + b@.subrange(c0 as int, c1 as int);
    let n1 = p1 - p0;
    let n2 = c1 - c0;
    if a.len() < n1 || a.len() - n1 != n2 {
        proof {
            if joined == a@ {
                assert(joined.len() == a@.len());
            }
        }
        return false;
    }
    let mut k: usize = 0;
    while k < a.len()
        invariant
            a@.len() == n1 + n2,
            joined.len() == a@.len(),
            joined == b@.subrange(p0 as int, p1 as int) + b@.subrange(c0 as int, c1 as int),
            n1 == p1 - p0,
            n2 == c1 - c0,
            p0 <= p1 <= b@.len(),
            c0 <= c1 <= b@.len(),
            k <= a@.len(),
            forall|j: int| 0 <= j < k ==> joined[j] == a@[j],
        decreases a@.len() - k,
    {
        let x = if k < n1 { b[p0 + k] } else { b[c0 + (k - n1)] };
        assert(x == joined[k as int]);
        if x != a[k] {
            return false;
        }
        k = k + 1;
    }
    proof {
        assert(joined =~= a@);
    }
    true
}

fn is_abbreviation_pair(b: &[u8], p0: usize, p1: usize, c0: usize, c1: usize) -> (r: bool)
    requires
        p0 <= p1 <= b@.len(),
        c0 <= c1 <= b@.len(),
    ensures
        r == abbreviations().contains(b@.subrange(p0 as int, p1 as int) + b@.subrange(c0 as int, c1 as int)),
{
    let ghost joined = b@.subrange(p0 as int, p1 as int) + b@.subrange(c0 as int, c1 as int);
    let mut i: usize = 0;
    while i < 23
        invariant
            i <= 23,
            p0 <= p1 <= b@.len(),
            c0 <= c1 <= b@.len(),
            joined == b@.subrange(p0 as int, p1 as int) + b@.subrange(c0 as int, c1 as int),
            forall|j: int| 0 <= j < i ==> abbreviations()[j] != joined,
        decreases 23 - i,
    {
        let a = abbreviation_at(i);
        if bytes_equal_concat(b, p0, p1, c0, c1, &a) {
            proof {
                assert(abbreviations()[i as int] == joined);
                assert(abbreviations().len() == 23);
            }
            return true;
        }
        i = i + 1;
    }
    proof {
        assert(abbreviations().len() == 23);
        if abbreviations().contains(joined) {
            let j = choose|j: int| 0 <= j < abbreviations().len() && abbreviations()[j] == joined;
            assert(abbreviations()[j] != joined);
        }
    }
    false
}

// ---------------------------------------------------------------------------
// The tokenizer.

/// Splits texts into tokens and finds sentences among them.
#[derive(Debug, Clone, Copy)]
pub struct Tokenizer {}

impl Tokenizer {
    /// A tokenizer; creating one cannot fail.
    pub fn new() -> (r: LangExtractResult<Self>)
        ensures
            r is Ok,
    {
        Ok(Tokenizer {})
    }

    /// Tokenizes `text` by the grammar described at the top of this module.
    pub fn tokenize(&self, text: &str) -> (r: LangExtractResult<TokenizedText>)
        ensures
            r matches Ok(t) && t.text@ == text@ && t.tokens@ == spec_tokens(bytes(text)) && t.wf()
                && tokens_ordered(bytes(text), t.tokens@),
    {
        let b = text.as_bytes();
        let n = b.len();
        proof {
            assert(n as int == b@.len());
            lemma_str_valid(text);
            lemma_spec_tokens_ordered(bytes(text));
        }
        let ghost bs = b@;
        let ghost full = lex_spans(bs, 0);
        let mut tokens: Vec<Token> = Vec::new();
        let ghost mut prefix: Seq<(int, int)> = seq![];
        let mut pos: usize = 0;
        let mut previous_end: usize = 0;
        loop
            invariant
                bs == b@,
                full == lex_spans(bs, 0),
                pos <= bs.len(),
                full == prefix + lex_spans(bs, pos as int),
                tokens@.len() == prefix.len(),
                prefix.len() > 0 ==> previous_end == prefix.last().1 && previous_end == pos,
                prefix.len() == 0 ==> pos == 0,
                forall|k: int| 0 <= k < tokens@.len() ==> tokens@[k] == #[trigger] spec_token(bs, full, k),
            ensures
                full == prefix,
                tokens@.len() == prefix.len(),
                forall|k: int| 0 <= k < tokens@.len() ==> tokens@[k] == #[trigger] spec_token(bs, full, k),
            decreases bs.len() - pos,
        {
            if pos >= b.len() {
                proof {
                    assert(lex_spans(bs, pos as int) =~= seq![]);
                    assert(full =~= prefix);
                }
                break;
            }
            proof {
                lemma_skip_ws_bounds(bs, pos as int);
            }
            let start = skip_ws_at(b, pos);
            if start >= b.len() {
                proof {
                    assert(lex_spans(bs, pos as int) =~= seq![]);
                    assert(full =~= prefix);
                }
                break;
            }
            proof {
                lemma_match_end_bounds(bs, start as int);
            }
            let end = match_end_at(b, start);
            proof {
                assert(lex_spans(bs, pos as int) == seq![(start as int, end as int)] + lex_spans(bs, end as int));
                assert(full[prefix.len() as int] == (start as int, end as int));
            }
            let index = tokens.len();
            let after_newline = if index > 0 {
                gap_has_line_break_at(b, previous_end, start)
            } else {
                false
            };
            let token_type = classify_bytes(b, start, end);
            let token = Token::new(index, token_type, CharInterval::new(start, end), after_newline);
            proof {
                if index > 0 {
                    assert(full[index - 1] == prefix.last());
                }
                assert(token == spec_token(bs, full, index as int));
            }
            tokens.push(token);
            proof {
                prefix = prefix.push((start as int, end as int));
                assert(full =~= prefix + lex_spans(bs, end as int));
            }
            previous_end = end;
            pos = end;
        }
        proof {
            assert(tokens@ =~= spec_tokens(bs));
        }
        let mut t = TokenizedText::new(text.to_string());
        t.tokens = tokens;
        Ok(t)
    }

    /// The text covered by a span of tokens, from the start of its first
    /// token to the end of its last.
    pub fn tokens_text(&self, tokenized_text: &TokenizedText, token_interval: &TokenInterval) -> (r:
        LangExtractResult<String>)
        requires
            interval_sliceable(encode_utf8(tokenized_text.text@), tokenized_text.tokens@, *token_interval),
        ensures
            tokens_text_outcome(encode_utf8(tokenized_text.text@), tokenized_text.tokens@, *token_interval, r),
    {
        let start = token_interval.start_index;
        let end = token_interval.end_index;
        if start >= end {
            let mut m = String::new();
            push_str(&mut m, "Invalid token interval: start_index=");
            let a = decimal_string(start);
            push_str(&mut m, a.as_str());
            push_str(&mut m, ", end_index=");
            let c = decimal_string(end);
            push_str(&mut m, c.as_str());
            proof {
                assert(m@ =~= invalid_interval_message(start as nat, end as nat));
            }
            return Err(LangExtractError::InvalidInput(m));
        }
        let count = tokenized_text.tokens.len();
        if end > count {
            let mut m = String::new();
            push_str(&mut m, "Token interval end_index ");
            let a = decimal_string(end);
            push_str(&mut m, a.as_str());
            push_str(&mut m, " exceeds token count ");
            let c = decimal_string(count);
            push_str(&mut m, c.as_str());
            proof {
                assert(m@ =~= interval_exceeds_message(end as nat, count as nat));
            }
            return Err(LangExtractError::InvalidInput(m));
        }
        if count == 0 {
            return Ok(String::new());
        }
        let text = tokenized_text.text.as_str();
        let start_char = tokenized_text.tokens[start].char_interval.start_pos;
        let end_char = tokenized_text.tokens[end - 1].char_interval.end_pos;
        let piece = substr(text, start_char, end_char);
        Ok(piece.to_string())
    }

    /// Whether the punctuation token at `current_idx` ends a sentence: it
    /// ends with `.`, `?` or `!` and does not complete a known abbreviation
    /// together with the token before it.
    pub fn is_end_of_sentence_token(&self, text: &str, tokens: &[Token], current_idx: usize) -> (r: bool)
        requires
            tokens_in_text(bytes(text), tokens@),
        ensures
            r == spec_end_of_sentence(bytes(text), tokens@, current_idx as int),
    {
        if current_idx >= tokens.len() {
            return false;
        }
        let b = text.as_bytes();
        let cur = tokens[current_idx].char_interval;
        let ends = cur.start_pos < cur.end_pos && (b[cur.end_pos - 1] == 46 || b[cur.end_pos - 1] == 63
            || b[cur.end_pos - 1] == 33);
        proof {
            let t = token_bytes(b@, tokens@[current_idx as int]);
            if t.len() > 0 {
                assert(t.last() == b@[cur.end_pos - 1]);
            }
        }
        if !ends {
            return false;
        }
        if current_idx > 0 {
            let prev = tokens[current_idx - 1].char_interval;
            if is_abbreviation_pair(b, prev.start_pos, prev.end_pos, cur.start_pos, cur.end_pos) {
                return false;
            }
        }
        true
    }

    /// Whether a newline separates the token at `current_idx` from the next
    /// one and the next one starts with an uppercase character.
    pub fn is_sentence_break_after_newline(&self, text: &str, tokens: &[Token], current_idx: usize) -> (r:
        bool)
        requires
            tokens_in_text(bytes(text), tokens@),
        ensures
            r == spec_break_after_newline(bytes(text), tokens@, current_idx as int),
    {
        if tokens.len() == 0 || current_idx >= tokens.len() - 1 {
            return false;
        }
        let b = text.as_bytes();
        let gap_start = tokens[current_idx].char_interval.end_pos;
        let gap_end = tokens[current_idx + 1].char_interval.start_pos;
        if gap_start >= gap_end {
            return false;
        }
        if !contains_newline(b, gap_start, gap_end) {
            return false;
        }
        let next = tokens[current_idx + 1].char_interval;
        if next.start_pos >= next.end_pos {
            return false;
        }
        let piece = substr(text, next.start_pos, next.end_pos);
        proof {
            lemma_chars_of(piece);
            lemma_str_valid(piece);
            reveal_with_fuel(decode_utf8, 2);
            assert(piece@.len() > 0);
        }
        let c = piece.get_char(0);
        is_uppercase(c)
    }

    /// The sentence that starts at token `start_token_index`: it runs up to
    /// and including the first token from there on that closes a sentence,
    /// or to the last token when none does.
    pub fn find_sentence_range(&self, text: &str, tokens: &[Token], start_token_index: usize) -> (r:
        LangExtractResult<TokenInterval>)
        requires
            tokens_in_text(bytes(text), tokens@),
        ensures
            start_token_index >= tokens@.len() ==> (r matches Err(LangExtractError::InvalidInput(m))
                && m@ == sentence_start_message(start_token_index as nat, tokens@.len())),
            start_token_index < tokens@.len() ==> r == Ok::<TokenInterval, LangExtractError>(
                TokenInterval {
                    start_index: start_token_index,
                    end_index: sentence_end_from(bytes(text), tokens@, start_token_index as int) as usize,
                },
            ),
    {
        let count = tokens.len();
        if start_token_index >= count {
            let mut m = String::new();
            push_str(&mut m, "start_token_index ");
            let a = decimal_string(start_token_index);
            push_str(&mut m, a.as_str());
            push_str(&mut m, " out of range. Total tokens: ");
            let c = decimal_string(count);
            push_str(&mut m, c.as_str());
            proof {
                assert(m@ =~= sentence_start_message(start_token_index as nat, count as nat));
            }
            return Err(LangExtractError::InvalidInput(m));
        }
        let ghost b = bytes(text);
        let mut i = start_token_index;
        while i < count
            invariant
                start_token_index <= i <= count == tokens@.len(),
                tokens_in_text(b, tokens@),
                b == bytes(text),
                sentence_end_from(b, tokens@, start_token_index as int) == sentence_end_from(b, tokens@, i as int),
            decreases count - i,
        {
            let closes = (tokens[i].token_type == TokenType::Punctuation && self.is_end_of_sentence_token(text, tokens, i))
                || self.is_sentence_break_after_newline(text, tokens, i);
            if closes {
                return TokenInterval::new(start_token_index, i + 1);
            }
            i = i + 1;
        }
        TokenInterval::new(start_token_index, count)
    }
}

impl Default for Tokenizer {
    fn default() -> (t: Self) {
        Tokenizer {}
    }
}

/// Tokenizes `text` with a fresh tokenizer.
pub fn tokenize(text: &str) -> (r: LangExtractResult<TokenizedText>)
    ensures
        r matches Ok(t) && t.text@ == text@ && t.tokens@ == spec_tokens(bytes(text)) && t.wf()
            && tokens_ordered(bytes(text), t.tokens@),
{
    let tokenizer = Tokenizer {};
    tokenizer.tokenize(text)
}

/// The text `Current token position {pos} is past the length of the document {len}`.
pub open spec fn past_document_message(pos: nat, len: nat) -> Seq<char> {
    "Current token position "@ + decimal(pos) + " is past the length of the document "@ + decimal(len)
}

/// Walks a tokenized text sentence by sentence.
#[derive(Clone, Copy)]
pub struct SentenceIterator<'a> {
    tokenized_text: &'a TokenizedText,
    tokenizer: &'a Tokenizer,
    current_token_pos: usize,
    token_len: usize,
}

impl<'a> SentenceIterator<'a> {
    #[verifier::type_invariant]
    closed spec fn inv(&self) -> bool {
        &&& self.token_len == self.tokenized_text.tokens@.len()
        &&& self.current_token_pos <= self.token_len
        &&& tokens_in_text(encode_utf8(self.tokenized_text.text@), self.tokenized_text.tokens@)
    }

    /// The token the next sentence starts at.
    pub closed spec fn position(&self) -> nat {
        self.current_token_pos as nat
    }

    /// The text being walked.
    pub closed spec fn source(&self) -> TokenizedText {
        *self.tokenized_text
    }

    /// An iterator that starts at token `current_token_pos`; a position
    /// past the last token is refused.
    pub fn new(tokenized_text: &'a TokenizedText, tokenizer: &'a Tokenizer, current_token_pos: usize) -> (r:
        LangExtractResult<Self>)
        requires
            tokens_in_text(encode_utf8(tokenized_text.text@), tokenized_text.tokens@),
        ensures
            current_token_pos > tokenized_text.tokens@.len() ==> (r matches Err(
                LangExtractError::InvalidInput(m),
            ) && m@ == past_document_message(current_token_pos as nat, tokenized_text.tokens@.len())),
            current_token_pos <= tokenized_text.tokens@.len() ==> (r matches Ok(it) && it.position()
                == current_token_pos && it.source() == *tokenized_text),
    {
        let token_len = tokenized_text.tokens.len();
        if current_token_pos > token_len {
            let mut m = String::new();
            push_str(&mut m, "Current token position ");
            let a = decimal_string(current_token_pos);
            push_str(&mut m, a.as_str());
            push_str(&mut m, " is past the length of the document ");
            let c = decimal_string(token_len);
            push_str(&mut m, c.as_str());
            proof {
                assert(m@ =~= past_document_message(current_token_pos as nat, token_len as nat));
            }
            return Err(LangExtractError::InvalidInput(m));
        }
        Ok(SentenceIterator { tokenized_text, tokenizer, current_token_pos, token_len })
    }

    /// The next sentence, from the current position to the end of the
    /// sentence that position lies in; `None` once all tokens are used.
    pub fn next(&mut self) -> (r: Option<LangExtractResult<TokenInterval>>)
        ensures
            final(self).source() == old(self).source(),
            final(self).position() <= final(self).source().tokens@.len(),
            old(self).position() >= old(self).source().tokens@.len() ==> r is None && final(self).position()
                == old(self).position(),
            old(self).position() < old(self).source().tokens@.len() ==> {
                let e = sentence_end_from(
                    encode_utf8(old(self).source().text@),
                    old(self).source().tokens@,
                    old(self).position() as int,
                );
                &&& r == Some(Ok::<TokenInterval, LangExtractError>(
                    TokenInterval { start_index: old(self).position() as usize, end_index: e as usize },
                ))
                &&& final(self).position() == e
            },
    {
        proof {
            use_type_invariant(&*self);
        }
        if self.current_token_pos >= self.token_len {
            return None;
        }
        let tokenized = self.tokenized_text;
        let pos = self.current_token_pos;
        proof {
            lemma_sentence_end_bounds(encode_utf8(tokenized.text@), tokenized.tokens@, pos as int);
        }
        match self.tokenizer.find_sentence_range(tokenized.text.as_str(), tokenized.tokens.as_slice(), pos) {
            Ok(sentence_range) => {
                let adjusted = match TokenInterval::new(pos, sentence_range.end_index) {
                    Ok(range) => range,
                    Err(e) => return Some(Err(e)),
                };
                self.current_token_pos = sentence_range.end_index;
                Some(Ok(adjusted))
            },
            Err(e) => Some(Err(e)),
        }
    }

    /// All remaining sentences, in order.
    #[verifier::rlimit(50)]
    pub fn collect_all(&mut self) -> (r: LangExtractResult<Vec<TokenInterval>>)
        ensures
            final(self).source() == old(self).source(),
            r matches Ok(v) && v@.len() <= old(self).source().tokens@.len() && (forall|k: int| 0 <= k < v@.len() ==> {
                &&& (#[trigger] v@[k]).start_index < v@[k].end_index
                &&& v@[k].end_index == sentence_end_from(
                    encode_utf8(old(self).source().text@),
                    old(self).source().tokens@,
                    v@[k].start_index as int,
                )
                &&& (k == 0 ==> v@[k].start_index == old(self).position())
                &&& (k > 0 ==> v@[k].start_index == v@[k - 1].end_index)
            }) && (v@.len() > 0 ==> v@.last().end_index == old(self).source().tokens@.len())
                && (v@.len() == 0 ==> old(self).position() >= old(self).source().tokens@.len()),
    {
        proof {
            use_type_invariant(&*self);
        }
        let mut out: Vec<TokenInterval> = Vec::new();
        let ghost start = self.position();
        loop
            invariant
                self.source() == old(self).source(),
                start == old(self).position(),
                self.position() <= self.source().tokens@.len(),
                out@.len() <= self.position(),
                out@.len() == 0 ==> self.position() == start,
                out@.len() > 0 ==> out@.last().end_index == self.position(),
                forall|k: int| 0 <= k < out@.len() ==> {
                    &&& (#[trigger] out@[k]).start_index < out@[k].end_index
                    &&& out@[k].end_index == sentence_end_from(
                        encode_utf8(old(self).source().text@),
                        old(self).source().tokens@,
                        out@[k].start_index as int,
                    )
                    &&& (k == 0 ==> out@[k].start_index == start)
                    &&& (k > 0 ==> out@[k].start_index == out@[k - 1].end_index)
                },
            decreases self.source().tokens@.len() - self.position(),
        {
            proof {
                use_type_invariant(&*self);
            }
            proof {
                if self.position() < self.source().tokens@.len() {
                    lemma_sentence_end_bounds(
                        encode_utf8(self.source().text@),
                        self.source().tokens@,
                        self.position() as int,
                    );
                }
            }
            match self.next() {
                None => {
                    return Ok(out);
                },
                Some(Ok(interval)) => {
                    let ghost prev = out@;
                    out.push(interval);
                    proof {
                        assert(out@.last() == interval);
                        assert forall|k: int| 0 <= k < out@.len() - 1 implies out@[k] == prev[k] by {}
                    }
                },
                Some(Err(e)) => {
                    proof {
                        assert(false);
                    }
                    return Err(e);
                },
            }
        }
    }
}

} // verus!
