//! Placing extracted text in its source: exact and partial matches, and
//! counts of how extractions were placed.

use vstd::prelude::*;
use vstd::utf8::encode_utf8;
use crate::text::{bytes, byte_len, chars_of, push_char, white_space, is_white_space, first_non_ws};
use crate::data::{AlignmentStatus, Extraction};
use crate::chunking::{first_occurrence, find_from};
use crate::data::strings_equal;
use crate::providers::{to_lowercase, lowercase};

verus! {

broadcast use vstd::seq::group_seq_axioms;

/// How the extractions of a set were placed.
#[derive(Debug, Clone, Copy, PartialEq, Eq)]
pub struct AlignmentStats {
    /// All extractions.
    pub total: usize,
    /// Those matched exactly.
    pub exact: usize,
    /// Those matched fuzzily.
    pub fuzzy: usize,
    /// Those matched by a shorter stretch.
    pub lesser: usize,
    /// Those matched by a longer stretch.
    pub greater: usize,
    /// Those not placed.
    pub unaligned: usize,
}

/// How many of the first `n` extractions have alignment status `st`.
pub open spec fn status_count(es: Seq<Extraction>, st: Option<AlignmentStatus>, n: int) -> nat
    decreases n,
{
    if n <= 0 || n > es.len() {
        0
    } else {
        status_count(es, st, n - 1) + if es[n - 1].alignment_status == st { 1nat } else { 0nat }
    }
}

proof fn lemma_status_counts(es: Seq<Extraction>, n: int)
    requires
        0 <= n <= es.len(),
    ensures
        status_count(es, Some(AlignmentStatus::MatchExact), n) + status_count(es, Some(AlignmentStatus::MatchFuzzy), n)
            + status_count(es, Some(AlignmentStatus::MatchLesser), n) + status_count(es, Some(AlignmentStatus::MatchGreater), n)
            + status_count(es, None, n) == n,
    decreases n,
{
    if n > 0 {
        lemma_status_counts(es, n - 1);
        match es[n - 1].alignment_status {
            Some(AlignmentStatus::MatchExact) => {},
            Some(AlignmentStatus::MatchFuzzy) => {},
            Some(AlignmentStatus::MatchLesser) => {},
            Some(AlignmentStatus::MatchGreater) => {},
            None => {},
        }
    }
}

/// Counts the extractions by alignment status.
pub fn get_alignment_stats(extractions: &[Extraction]) -> (s: AlignmentStats)
    ensures
        s.total == extractions@.len(),
        s.exact == status_count(extractions@, Some(AlignmentStatus::MatchExact), extractions@.len() as int),
        s.fuzzy == status_count(extractions@, Some(AlignmentStatus::MatchFuzzy), extractions@.len() as int),
        s.lesser == status_count(extractions@, Some(AlignmentStatus::MatchLesser), extractions@.len() as int),
        s.greater == status_count(extractions@, Some(AlignmentStatus::MatchGreater), extractions@.len() as int),
        s.unaligned == status_count(extractions@, None, extractions@.len() as int),
        s.exact + s.fuzzy + s.lesser + s.greater + s.unaligned == s.total,
{
    let total = extractions.len();
    let mut exact: usize = 0;
    let mut fuzzy: usize = 0;
    let mut lesser: usize = 0;
    let mut greater: usize = 0;
    let mut unaligned: usize = 0;
    let mut i: usize = 0;
    while i < total
        invariant
            total == extractions@.len(),
            i <= total,
            exact == status_count(extractions@, Some(AlignmentStatus::MatchExact), i as int),
            fuzzy == status_count(extractions@, Some(AlignmentStatus::MatchFuzzy), i as int),
            lesser == status_count(extractions@, Some(AlignmentStatus::MatchLesser), i as int),
            greater == status_count(extractions@, Some(AlignmentStatus::MatchGreater), i as int),
            unaligned == status_count(extractions@, None, i as int),
        decreases total - i,
    {
        proof {
            lemma_status_counts(extractions@, i as int);
        }
        match extractions[i].alignment_status {
            Some(AlignmentStatus::MatchExact) => exact = exact + 1,
            Some(AlignmentStatus::MatchFuzzy) => fuzzy = fuzzy + 1,
            Some(AlignmentStatus::MatchLesser) => lesser = lesser + 1,
            Some(AlignmentStatus::MatchGreater) => greater = greater + 1,
            None => unaligned = unaligned + 1,
        }
        i = i + 1;
    }
    proof {
        lemma_status_counts(extractions@, total as int);
    }
    AlignmentStats { total, exact, fuzzy, lesser, greater, unaligned }
}

// ---------------------------------------------------------------------------
// Words.

/// The first position at or after `i` that holds whitespace, or the end.
pub open spec fn word_end(s: Seq<char>, i: int) -> int
    decreases s.len() - i,
{
    if 0 <= i < s.len() && !is_white_space(s[i]) { word_end(s, i + 1) } else { i }
}

/// The words of the text from `i` on: its maximal runs without whitespace.
pub open spec fn words_from(s: Seq<char>, i: int) -> Seq<Seq<char>>
    decreases s.len() - i,
    via words_from_decreases
{
    let a = first_non_ws(s, i);
    if i < 0 || a >= s.len() {
        seq![]
    } else {
        let b = word_end(s, a);
        seq![s.subrange(a, b)] + words_from(s, b)
    }
}

proof fn lemma_first_non_ws(s: Seq<char>, i: int)
    requires
        0 <= i,
    ensures
        i <= first_non_ws(s, i),
        first_non_ws(s, i) < s.len() ==> !is_white_space(s[first_non_ws(s, i)]),
        forall|k: int| i <= k < first_non_ws(s, i) ==> is_white_space(#[trigger] s[k]),
    decreases s.len() - i,
{
    if 0 <= i < s.len() && is_white_space(s[i]) {
        lemma_first_non_ws(s, i + 1);
    }
}

proof fn lemma_word_end(s: Seq<char>, i: int)
    requires
        0 <= i,
    ensures
        i <= word_end(s, i),
        i < s.len() ==> word_end(s, i) <= s.len(),
        word_end(s, i) < s.len() ==> is_white_space(s[word_end(s, i)]),
        forall|k: int| i <= k < word_end(s, i) ==> !is_white_space(#[trigger] s[k]),
    decreases s.len() - i,
{
    if 0 <= i < s.len() && !is_white_space(s[i]) {
        lemma_word_end(s, i + 1);
    }
}

#[via_fn]
proof fn words_from_decreases(s: Seq<char>, i: int) {
    if i >= 0 {
        lemma_first_non_ws(s, i);
        let a = first_non_ws(s, i);
        if a < s.len() {
            lemma_word_end(s, a);
            lemma_word_end(s, a + 1);
        }
    }
}

/// The words of a text, as `split_whitespace` finds them.
pub open spec fn words(s: Seq<char>) -> Seq<Seq<char>> {
    words_from(s, 0)
}

/// The words of a text: its maximal runs without whitespace, in order.
pub fn split_words(text: &str) -> (r: Vec<String>)
    ensures
        r@.map_values(|w: String| w@) == words(text@),
{
    let cs = chars_of(text);
    let ghost s = cs@;
    let n = cs.len();
    let mut out: Vec<String> = Vec::new();
    let mut i: usize = 0;
    proof {
        assert(out@.map_values(|w: String| w@) =~= seq![]);
        assert(words(s) =~= seq![] + words_from(s, 0));
    }
    while i < n
        invariant
            s == cs@,
            s == text@,
            n == s.len(),
            i <= n,
            words(s) == out@.map_values(|w: String| w@) + words_from(s, i as int),
        decreases n - i,
    {
        let ghost i0 = i as int;
        while i < n && white_space(cs[i])
            invariant
                s == cs@,
                n == s.len(),
                i0 <= i <= n,
                first_non_ws(s, i0) == first_non_ws(s, i as int),
            decreases n - i,
        {
            i = i + 1;
        }
        proof {
            lemma_first_non_ws(s, i0);
        }
        if i < n {
            let a = i;
            let mut w = String::new();
            while i < n && !white_space(cs[i])
                invariant
                    s == cs@,
                    n == s.len(),
                    a <= i <= n,
                    word_end(s, a as int) == word_end(s, i as int),
                    w@ == s.subrange(a as int, i as int),
                decreases n - i,
            {
                push_char(&mut w, cs[i]);
                proof {
                    assert(s.subrange(a as int, i + 1) =~= s.subrange(a as int, i as int).push(s[i as int]));
                }
                i = i + 1;
            }
            proof {
                assert(words_from(s, i0) == seq![s.subrange(a as int, i as int)] + words_from(s, i as int));
            }
            let ghost before = out@.map_values(|w: String| w@);
            out.push(w);
            proof {
                assert(out@.map_values(|w: String| w@) =~= before.push(s.subrange(a as int, i as int)));
            }
        } else {
            proof {
                assert(words_from(s, i0) =~= seq![]);
            }
        }
    }
    proof {
        assert(words_from(s, n as int) =~= seq![]);
    }
    out
}

// ---------------------------------------------------------------------------
// Exact matches.

/// Where the extraction's text lies in the source, when it occurs there
/// whole: its first occurrence, matched exactly. Else, when partial matches
/// are accepted and the text has several words: from the first occurrence
/// of its first word to the end of the next occurrence of its last word
/// from there, provided that stretch is shorter than twice the text.
pub open spec fn exact_match(extraction: Seq<char>, source: Seq<char>, accept_match_lesser: bool) -> Option<(usize, usize, AlignmentStatus)> {
    let e = encode_utf8(extraction);
    let b = encode_utf8(source);
    match first_occurrence(b, e, 0) {
        Some(start) => Some((start as usize, (start + e.len()) as usize, AlignmentStatus::MatchExact)),
        None => {
            let ws = words(extraction);
            if accept_match_lesser && ws.len() > 1 {
                match first_occurrence(b, encode_utf8(ws[0]), 0) {
                    Some(fs) => match first_occurrence(b, encode_utf8(ws.last()), fs) {
                        Some(ls) => {
                            let last_end = ls + encode_utf8(ws.last()).len();
                            if last_end - fs < e.len() * 2 {
                                Some((fs as usize, last_end as usize, AlignmentStatus::MatchLesser))
                            } else {
                                None
                            }
                        },
                        None => None,
                    },
                    None => None,
                }
            } else {
                None
            }
        },
    }
}


/// Finds the extraction's text in the source; see [`exact_match`]. Both
/// texts are compared as they are.
pub fn find_exact_match(extraction_text: &str, source_text: &str, accept_match_lesser: bool) -> (r: Option<(usize, usize, AlignmentStatus)>)
    requires
        bytes(extraction_text).len() * 2 <= usize::MAX,
    ensures
        r == exact_match(extraction_text@, source_text@, accept_match_lesser),
{
    let hay = source_text.as_bytes();
    let needle = extraction_text.as_bytes();
    let elen = byte_len(extraction_text);
    let _slen = byte_len(source_text);
    proof {
        crate::chunking::lemma_first_occurrence_bounds(hay@, needle@, 0);
    }
    match find_from(hay, needle, 0) {
        Some(start) => {
            return Some((start, start + elen, AlignmentStatus::MatchExact));
        },
        None => {},
    }
    if accept_match_lesser {
        let ws = split_words(extraction_text);
        let ghost wv = ws@.map_values(|w: String| w@);
        if ws.len() > 1 {
            let first = ws[0].as_str();
            let last = ws[ws.len() - 1].as_str();
            proof {
                assert(wv[0] == first@);
                assert(wv.last() == last@);
                crate::chunking::lemma_first_occurrence_bounds(hay@, bytes(first), 0);
            }
            match find_from(hay, first.as_bytes(), 0) {
                Some(fs) => {
                    proof {
                        crate::chunking::lemma_first_occurrence_bounds(hay@, bytes(last), fs as int);
                    }
                    match find_from(hay, last.as_bytes(), fs) {
                        Some(ls) => {
                            let last_end = ls + byte_len(last);
                            if last_end - fs < elen * 2 {
                                return Some((fs, last_end, AlignmentStatus::MatchLesser));
                            }
                        },
                        None => {},
                    }
                },
                None => {},
            }
        }
    }
    None
}


// ---------------------------------------------------------------------------
// Word windows for fuzzy alignment.

/// The lowercase forms of words.
pub open spec fn lowercase_words(ws: Seq<String>) -> Seq<Seq<char>> {
    ws.map_values(|w: String| lowercase(w@))
}

/// How many of the first `n` words occur among `window`.
pub open spec fn covered_count(words: Seq<Seq<char>>, window: Seq<Seq<char>>, n: int) -> nat
    decreases n,
{
    if n <= 0 || n > words.len() {
        0
    } else {
        covered_count(words, window, n - 1) + if window.contains(words[n - 1]) { 1nat } else { 0nat }
    }
}

/// How many of `words` occur among the words of `window`, both compared
/// lower-cased; see [`covered_count`].
pub fn covered_word_count(words: &Vec<String>, window: &Vec<String>) -> (n: usize)
    ensures
        n == covered_count(lowercase_words(words@), lowercase_words(window@), words@.len() as int),
{
    let ghost lw = lowercase_words(words@);
    let ghost lv = lowercase_words(window@);
    let mut low: Vec<String> = Vec::new();
    let mut j: usize = 0;
    while j < window.len()
        invariant
            j <= window@.len(),
            lv == lowercase_words(window@),
            low@.len() == j,
            forall|q: int| 0 <= q < j ==> (#[trigger] low@[q])@ == lv[q],
        decreases window@.len() - j,
    {
        low.push(to_lowercase(window[j].as_str()));
        j = j + 1;
    }
    let mut count: usize = 0;
    let mut i: usize = 0;
    while i < words.len()
        invariant
            i <= words@.len(),
            lw == lowercase_words(words@),
            lv == lowercase_words(window@),
            low@.len() == lv.len(),
            forall|q: int| 0 <= q < lv.len() ==> (#[trigger] low@[q])@ == lv[q],
            count == covered_count(lw, lv, i as int),
            count <= i,
        decreases words@.len() - i,
    {
        let w = to_lowercase(words[i].as_str());
        let mut found = false;
        let mut q: usize = 0;
        while q < low.len()
            invariant
                q <= low@.len(),
                low@.len() == lv.len(),
                forall|k: int| 0 <= k < lv.len() ==> (#[trigger] low@[k])@ == lv[k],
                found == exists|k: int| 0 <= k < q && lv[k] == w@,
            decreases low@.len() - q,
        {
            if strings_equal(low[q].as_str(), w.as_str()) {
                found = true;
            }
            proof {
                assert(low@[q as int]@ == lv[q as int]);
            }
            q = q + 1;
        }
        proof {
            assert(w@ == lw[i as int]);
            if found {
                let k = choose|k: int| 0 <= k < lv.len() && lv[k] == w@;
                assert(lv.contains(lw[i as int]));
            } else {
                assert(!lv.contains(lw[i as int]));
            }
        }
        if found {
            count = count + 1;
        }
        i = i + 1;
    }
    count
}

/// The byte length of the first `k` words joined by single spaces.
pub open spec fn joined_len(words: Seq<String>, k: int) -> int
    decreases k,
{
    if k <= 0 || k > words.len() {
        0
    } else if k == 1 {
        encode_utf8(words[0]@).len() as int
    } else {
        joined_len(words, k - 1) + 1 + encode_utf8(words[k - 1]@).len()
    }
}

/// Where the words from `start` on begin in the text they were split from,
/// measured as the joined words before them and one space.
pub open spec fn word_span_start(words: Seq<String>, start: int) -> int {
    if start == 0 { 0 } else { joined_len(words, start) + 1 }
}

/// Where the words before `end` end: at the end of a text of `text_len`
/// bytes when they are all the words, else the length of their join.
pub open spec fn word_span_end(words: Seq<String>, end: int, text_len: int) -> int {
    if end >= words.len() { text_len } else { joined_len(words, end) }
}

/// The byte offsets of the words from `start` to before `end`, measured as
/// [`word_span_start`] and [`word_span_end`] do; `None` when a length does
/// not fit in a `usize`.
pub fn word_span_offsets(words: &Vec<String>, start: usize, end: usize, text_len: usize) -> (r: Option<(usize, usize)>)
    requires
        start <= end <= words@.len(),
    ensures
        match r {
            Some((a, z)) => a == word_span_start(words@, start as int) && z == word_span_end(words@, end as int, text_len as int),
            None => word_span_start(words@, start as int) > usize::MAX || word_span_end(words@, end as int, text_len as int)
                > usize::MAX,
        },
{
    let lim = if end >= words.len() { start } else { end };
    let mut len: usize = 0;
    let mut at_start: usize = 0;
    let mut k: usize = 0;
    while k < lim
        invariant
            start <= end <= words@.len(),
            lim == (if end >= words@.len() { start } else { end }),
            k <= lim,
            len == joined_len(words@, k as int),
            k >= start ==> at_start == joined_len(words@, start as int),
        decreases lim - k,
    {
        let w = byte_len(words[k].as_str());
        let step = if k == 0 { Some(w) } else {
            match len.checked_add(1) {
                Some(x) => x.checked_add(w),
                None => None,
            }
        };
        match step {
            Some(x) => {
                len = x;
            },
            None => {
                proof {
                    lemma_joined_len_grows(words@, (k + 1) as int, lim as int);
                }
                return None;
            },
        }
        k = k + 1;
        if k == start {
            at_start = len;
        }
    }
    let a = if start == 0 {
        0
    } else {
        match at_start.checked_add(1) {
            Some(x) => x,
            None => {
                return None;
            },
        }
    };
    let z = if end >= words.len() { text_len } else { len };
    Some((a, z))
}

/// Joining more words gives a longer text.
proof fn lemma_joined_len_grows(words: Seq<String>, k: int, m: int)
    requires
        0 <= k <= m <= words.len(),
    ensures
        joined_len(words, k) <= joined_len(words, m),
    decreases m - k,
{
    if k < m {
        lemma_joined_len_grows(words, k + 1, m);
    }
}


// ---------------------------------------------------------------------------
// What an exact match is.

/// A search from `from` finds the first occurrence at or after it.
proof fn lemma_first_occurrence_first(hay: Seq<u8>, needle: Seq<u8>, from: int, q: int)
    requires
        0 <= from <= q,
        q + needle.len() <= hay.len(),
        hay.subrange(q, q + needle.len()) == needle,
    ensures
        first_occurrence(hay, needle, from) matches Some(x) && from <= x <= q && hay.subrange(x, x + needle.len())
            == needle && forall|p: int| from <= p < x ==> #[trigger] hay.subrange(p, p + needle.len()) != needle,
    decreases q - from,
{
    if hay.subrange(from, from + needle.len()) != needle {
        lemma_first_occurrence_first(hay, needle, from + 1, q);
    }
}

/// When the extraction's bytes occur in the source, the match is exact and
/// lies at their first occurrence: the source's bytes from its start to its
/// end are the extraction's, and they occur at no earlier position.
pub proof fn lemma_exact_match_first_occurrence(extraction: Seq<char>, source: Seq<char>, accept_match_lesser: bool, q: int)
    requires
        encode_utf8(source).len() <= usize::MAX,
        0 <= q,
        q + encode_utf8(extraction).len() <= encode_utf8(source).len(),
        encode_utf8(source).subrange(q, q + encode_utf8(extraction).len()) == encode_utf8(extraction),
    ensures
        ({
            let e = encode_utf8(extraction);
            let b = encode_utf8(source);
            exact_match(extraction, source, accept_match_lesser) matches Some((st, en, status)) && status
                == AlignmentStatus::MatchExact && st <= q && en == st + e.len() && b.subrange(st as int, en as int) == e
                && forall|p: int| 0 <= p < st ==> #[trigger] b.subrange(p, p + e.len()) != e
        }),
{
    lemma_first_occurrence_first(encode_utf8(source), encode_utf8(extraction), 0, q);
}

} // verus!
