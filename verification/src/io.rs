//! Reading text sources: recognising URLs, tidying whitespace, stripping
//! HTML tags and guessing the kind of content.

use vstd::prelude::*;
use crate::text::{chars_of, push_char, squeeze_trim, squeeze_ws, trim_ws, is_white_space, white_space, first_non_ws, last_non_ws_end};

verus! {

broadcast use vstd::seq::group_seq_axioms;

/// The text starts with `prefix`.
pub open spec fn has_prefix(s: Seq<char>, prefix: Seq<char>) -> bool {
    prefix.len() <= s.len() && s.subrange(0, prefix.len() as int) == prefix
}

fn starts_with(s: &str, prefix: &str) -> (r: bool)
    ensures
        r == has_prefix(s@, prefix@),
{
    let sc = chars_of(s);
    let pc = chars_of(prefix);
    if pc.len() > sc.len() {
        return false;
    }
    let mut k: usize = 0;
    while k < pc.len()
        invariant
            sc@ == s@,
            pc@ == prefix@,
            pc@.len() <= sc@.len(),
            k <= pc@.len(),
            forall|j: int| 0 <= j < k ==> sc@[j] == pc@[j],
        decreases pc@.len() - k,
    {
        if sc[k] != pc[k] {
            proof {
                assert(sc@.subrange(0, pc@.len() as int)[k as int] != pc@[k as int]);
            }
            return false;
        }
        k = k + 1;
    }
    proof {
        assert(sc@.subrange(0, pc@.len() as int) =~= pc@);
    }
    true
}

/// Whether the text is an HTTP or HTTPS URL: it starts with `http://` or
/// `https://`.
pub fn is_url(text: &str) -> (r: bool)
    ensures
        r == (has_prefix(text@, "http://"@) || has_prefix(text@, "https://"@)),
{
    starts_with(text, "http://") || starts_with(text, "https://")
}

/// Trims the text and replaces every run of whitespace in it by one space.
pub fn normalize_text(text: &str) -> (r: String)
    ensures
        r@ == squeeze_ws(trim_ws(text@)),
{
    squeeze_trim(text)
}

/// The text with every tag (`<` up to the next `>`) replaced by a space,
/// from position `i` on; a `<` without a later `>` stays.
pub open spec fn tags_replaced(s: Seq<char>, i: int) -> Seq<char>
    decreases s.len() - i,
    via tags_replaced_decreases
{
    if i < 0 || i >= s.len() {
        seq![]
    } else if s[i] == '<' && next_close(s, i + 1) < s.len() {
        seq![' '] + tags_replaced(s, next_close(s, i + 1) + 1)
    } else {
        seq![s[i]] + tags_replaced(s, i + 1)
    }
}

/// The first position at or after `i` holding `>`, or the length when none does.
pub open spec fn next_close(s: Seq<char>, i: int) -> int
    decreases s.len() - i,
{
    if i < 0 || i >= s.len() {
        s.len() as int
    } else if s[i] == '>' {
        i
    } else {
        next_close(s, i + 1)
    }
}

#[via_fn]
proof fn tags_replaced_decreases(s: Seq<char>, i: int) {
    if 0 <= i < s.len() {
        lemma_next_close(s, i + 1);
    }
}

proof fn lemma_next_close(s: Seq<char>, i: int)
    requires
        0 <= i <= s.len(),
    ensures
        i <= next_close(s, i) <= s.len(),
        next_close(s, i) < s.len() ==> s[next_close(s, i)] == '>',
        forall|k: int| i <= k < next_close(s, i) ==> s[k] != '>',
    decreases s.len() - i,
{
    if i < s.len() && s[i] != '>' {
        lemma_next_close(s, i + 1);
    }
}

/// The text of an HTML document: tags replaced by spaces, then whitespace
/// tidied as [`normalize_text`] does.
pub fn extract_text_from_html(html: &str) -> (r: String)
    ensures
        r@ == squeeze_ws(trim_ws(tags_replaced(html@, 0))),
{
    let s = chars_of(html);
    let ghost sv = s@;
    let mut out = String::new();
    let mut i: usize = 0;
    while i < s.len()
        invariant
            sv == s@,
            i <= sv.len(),
            tags_replaced(sv, 0) == out@ + tags_replaced(sv, i as int),
        decreases sv.len() - i,
    {
        if s[i] == '<' {
            let mut j = i + 1;
            while j < s.len() && s[j] != '>'
                invariant
                    sv == s@,
                    i < j <= sv.len(),
                    next_close(sv, i + 1) == next_close(sv, j as int),
                decreases sv.len() - j,
            {
                j = j + 1;
            }
            if j < s.len() {
                push_char(&mut out, ' ');
                proof {
                    assert(tags_replaced(sv, i as int) == seq![' '] + tags_replaced(sv, j + 1));
                    assert(out@ + tags_replaced(sv, j + 1) =~= (out@.drop_last() + seq![' ']) + tags_replaced(sv, j + 1));
                }
                i = j + 1;
            } else {
                push_char(&mut out, '<');
                proof {
                    assert(tags_replaced(sv, i as int) == seq!['<'] + tags_replaced(sv, i + 1));
                }
                i = i + 1;
            }
        } else {
            push_char(&mut out, s[i]);
            i = i + 1;
        }
    }
    proof {
        assert(out@ + seq![] =~= out@);
    }
    squeeze_trim(out.as_str())
}

/// The kinds of content a text can hold.
#[derive(Debug, Clone, Copy, PartialEq, Eq, Structural)]
pub enum ContentType {
    /// Plain text.
    PlainText,
    /// HTML.
    Html,
    /// JSON.
    Json,
    /// YAML.
    Yaml,
    /// Not known.
    Unknown,
}

/// The text holds `pattern`.
pub open spec fn holds(s: Seq<char>, pattern: Seq<char>) -> bool {
    exists|i: int| 0 <= i && i + pattern.len() <= s.len() && #[trigger] s.subrange(i, i + pattern.len()) == pattern
}

fn contains_chars(s: &Vec<char>, pattern: &Vec<char>) -> (r: bool)
    ensures
        r == holds(s@, pattern@),
{
    let r = crate::templates::find_chars_from(s, pattern, 0);
    proof {
        crate::templates::lemma_find_chars(s@, pattern@, 0);
        lemma_find_first(s@, pattern@, 0);
    }
    r.is_some()
}

proof fn lemma_find_first(s: Seq<char>, pattern: Seq<char>, from: int)
    requires
        0 <= from,
    ensures
        crate::templates::find_chars(s, pattern, from) is None ==> forall|i: int|
            from <= i && i + pattern.len() <= s.len() ==> #[trigger] s.subrange(i, i + pattern.len()) != pattern,
    decreases s.len() + 1 - from,
{
    if !(from + pattern.len() > s.len()) && s.subrange(from, from + pattern.len()) != pattern {
        lemma_find_first(s, pattern, from + 1);
    }
}

/// The text holds a tag: a `<`, at least one character other than `>`, and
/// a `>`.
pub open spec fn holds_tag(s: Seq<char>) -> bool {
    exists|i: int, j: int| 0 <= i && i + 1 < j < s.len() && s[i] == '<' && s[j] == '>' && (forall|k: int|
        i < k < j ==> s[k] != '>')
}

/// The kind of content of a text, judged on the trimmed text: JSON when it
/// is wrapped in braces or brackets and parses as JSON; else YAML when it
/// holds `---` or `: ` and parses as YAML; else HTML when it holds a tag;
/// else plain text.
pub open spec fn content_type_of(content: Seq<char>) -> ContentType {
    let t = trim_ws(content);
    if ((t.len() > 0 && t[0] == '{' && t.last() == '}') || (t.len() > 0 && t[0] == '[' && t.last() == ']'))
        && crate::layers::parsed_json(t) is Some {
        ContentType::Json
    } else if (holds(t, "---"@) || holds(t, ": "@)) && crate::json::yaml_read(t) is Ok {
        ContentType::Yaml
    } else if holds_tag(t) {
        ContentType::Html
    } else {
        ContentType::PlainText
    }
}

/// The text without leading and trailing whitespace.
pub fn trim_text(text: &str) -> (r: String)
    ensures
        r@ == trim_ws(text@),
{
    let chars = chars_of(text);
    let n = chars.len();
    let ghost s = chars@;
    let mut i: usize = 0;
    while i < n && white_space(chars[i])
        invariant
            s == chars@,
            s == text@,
            n == s.len(),
            0 <= i <= n,
            first_non_ws(s, 0) == first_non_ws(s, i as int),
        decreases n - i,
    {
        i = i + 1;
    }
    let mut out = String::new();
    if i >= n {
        proof {
            lemma_last_non_ws_end_le(s, n as int);
            assert(trim_ws(s) =~= seq![]);
        }
        return out;
    }
    let mut j: usize = n;
    while j > 0 && white_space(chars[j - 1])
        invariant
            s == chars@,
            n == s.len(),
            0 <= j <= n,
            i < n,
            !is_white_space(s[i as int]),
            i < j,
            last_non_ws_end(s, n as int) == last_non_ws_end(s, j as int),
        decreases j,
    {
        j = j - 1;
    }
    let mut k = i;
    while k < j
        invariant
            s == chars@,
            i <= k <= j <= n == s.len(),
            out@ == s.subrange(i as int, k as int),
        decreases j - k,
    {
        push_char(&mut out, chars[k]);
        proof {
            assert(out@ =~= s.subrange(i as int, k + 1));
        }
        k = k + 1;
    }
    out
}

proof fn lemma_last_non_ws_end_le(s: Seq<char>, j: int)
    requires
        0 <= j <= s.len(),
    ensures
        last_non_ws_end(s, j) <= j,
    decreases j,
{
    if 0 < j && is_white_space(s[j - 1]) {
        lemma_last_non_ws_end_le(s, j - 1);
    }
}

fn holds_tag_exec(t: &Vec<char>) -> (r: bool)
    ensures
        r == holds_tag(t@),
{
    let n = t.len();
    let mut i: usize = 0;
    while i < n
        invariant
            n == t@.len(),
            i <= n,
            forall|a: int, b: int| 0 <= a < i && a + 1 < b < n && t@[a] == '<' && t@[b] == '>' ==> exists|k: int|
                a < k < b && t@[k] == '>',
        decreases n - i,
    {
        if t[i] == '<' {
            let mut j = i + 1;
            while j < n && t[j] != '>'
                invariant
                    n == t@.len(),
                    i < j <= n,
                    forall|k: int| i < k < j ==> t@[k] != '>',
                decreases n - j,
            {
                j = j + 1;
            }
            if j < n && j > i + 1 {
                proof {
                    assert(holds_tag(t@)) by {
                        assert(forall|k: int| i < k < j ==> t@[k] != '>');
                    }
                }
                return true;
            }
            proof {
                assert forall|b: int| i + 1 < b < n && t@[b] == '>' implies exists|k: int| i < k < b && t@[k] == '>' by {
                    if j < n {
                        assert(j == i + 1);
                        assert(i < j < b && t@[j as int] == '>');
                    } else {
                        assert(false);
                    }
                }
            }
        }
        i = i + 1;
    }
    proof {
        if holds_tag(t@) {
            let (a, b) = choose|a: int, b: int| 0 <= a && a + 1 < b < t@.len() && t@[a] == '<' && t@[b] == '>' && (forall|k: int|
                a < k < b ==> t@[k] != '>');
            assert(exists|k: int| a < k < b && t@[k] == '>');
            assert(false);
        }
    }
    false
}

/// Guesses the kind of content of a text; see [`content_type_of`].
pub fn detect_content_type(content: &str) -> (r: ContentType)
    ensures
        r == content_type_of(content@),
{
    let trimmed = trim_text(content);
    let t = chars_of(trimmed.as_str());
    let n = t.len();
    let wrapped = n > 0 && ((t[0] == '{' && t[n - 1] == '}') || (t[0] == '[' && t[n - 1] == ']'));
    if wrapped {
        if crate::layers::parse_json(trimmed.as_str()).is_some() {
            return ContentType::Json;
        }
    }
    let mut dashes: Vec<char> = Vec::new();
    dashes.push('-');
    dashes.push('-');
    dashes.push('-');
    let mut colon: Vec<char> = Vec::new();
    colon.push(':');
    colon.push(' ');
    proof {
        reveal_strlit("---");
        reveal_strlit(": ");
        assert(dashes@ =~= "---"@);
        assert(colon@ =~= ": "@);
    }
    if contains_chars(&t, &dashes) || contains_chars(&t, &colon) {
        if crate::json::yaml_from_str(trimmed.as_str()).is_ok() {
            return ContentType::Yaml;
        }
    }
    if holds_tag_exec(&t) {
        return ContentType::Html;
    }
    ContentType::PlainText
}

} // verus!
