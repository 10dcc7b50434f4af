//! A small template engine for prompts: `{name}` placeholders filled from a
//! set of variables, and the fragments prompts are assembled from.
//!
//! Templates are read as sequences of characters; a placeholder is the
//! opening delimiter, a variable name, and the closing delimiter.

use vstd::prelude::*;
use crate::text::{push_str, push_char, push_decimal, chars_of, decimal, decimal_string, byte_len, bytes};
use serde_json::Value;
use crate::data::{FormatType, ExampleData, Extraction, keys_distinct, lookup, set_entry, get_entry, strings_equal};
use crate::schema::ATTRIBUTES_SUFFIX;
use crate::exceptions::{LangExtractError, LangExtractResult};
use crate::markup::{lacks, lemma_lacks_concat};

verus! {

broadcast use vstd::seq::group_seq_axioms;

// ---------------------------------------------------------------------------
// Variables.

/// Names and the values they stand for; each name once.
#[derive(Debug)]
pub struct Variables {
    entries: Vec<(String, String)>,
}

impl Variables {
    #[verifier::type_invariant]
    closed spec fn inv(&self) -> bool {
        keys_distinct(self.entries@)
    }

    /// The names and values, in the order the names were first set.
    pub closed spec fn bindings(&self) -> Seq<(String, String)> {
        self.entries@
    }

    /// The values of the names, as a function.
    pub open spec fn values(&self) -> spec_fn(Seq<char>) -> Option<Seq<char>> {
        |name: Seq<char>| self.value_of(name)
    }

    /// The value of `name`, if it has one.
    pub closed spec fn value_of(&self, name: Seq<char>) -> Option<Seq<char>> {
        match lookup(self.entries@, name) {
            Some(v) => Some(v@),
            None => None,
        }
    }

    /// No variables.
    pub fn new() -> (v: Self)
        ensures
            forall|name: Seq<char>| v.value_of(name) is None,
            v.bindings().len() == 0,
    {
        let entries: Vec<(String, String)> = Vec::new();
        proof {
            assert(keys_distinct(entries@));
        }
        Variables { entries }
    }

    /// Gives `name` the value `value`, replacing an earlier one.
    pub fn insert(&mut self, name: String, value: String)
        ensures
            final(self).value_of(name@) == Some(value@),
            forall|other: Seq<char>| other != name@ ==> final(self).value_of(other) == old(self).value_of(other),
    {
        proof {
            use_type_invariant(&*self);
        }
        let mut entries: Vec<(String, String)> = Vec::new();
        proof {
            assert(keys_distinct(entries@));
        }
        std::mem::swap(&mut entries, &mut self.entries);
        set_entry(&mut entries, name, value);
        self.entries = entries;
    }

    /// The value of `name`.
    pub fn get(&self, name: &str) -> (r: Option<&String>)
        ensures
            r matches Some(s) ==> self.value_of(name@) == Some(s@),
            r is None ==> self.value_of(name@) is None,
    {
        get_entry(&self.entries, name)
    }

    /// The number of names.
    pub fn len(&self) -> (n: usize)
        ensures
            n == self.bindings().len(),
    {
        self.entries.len()
    }

    /// The `i`th name and its value, in the order names were first set.
    pub fn entry(&self, i: usize) -> (r: (&String, &String))
        requires
            i < self.bindings().len(),
        ensures
            *r.0 == self.bindings()[i as int].0,
            *r.1 == self.bindings()[i as int].1,
    {
        (&self.entries[i].0, &self.entries[i].1)
    }

    /// The value of a name is the last binding of it.
    pub proof fn lemma_value_of(&self, name: Seq<char>)
        ensures
            self.value_of(name) == match lookup(self.bindings(), name) {
                Some(v) => Some(v@),
                None => None::<Seq<char>>,
            },
    {
    }

    /// Whether `name` has a value.
    pub fn contains_key(&self, name: &str) -> (b: bool)
        ensures
            b == self.value_of(name@) is Some,
    {
        get_entry(&self.entries, name).is_some()
    }
}

/// After setting a variable, it has the value set, and every other
/// variable keeps its value.
pub proof fn lemma_variables_insert_get(before: Variables, after: Variables, name: Seq<char>, value: Seq<char>, other: Seq<char>)
    requires
        after.value_of(name) == Some(value),
        forall|o: Seq<char>| o != name ==> after.value_of(o) == before.value_of(o),
    ensures
        after.value_of(name) == Some(value),
        other != name ==> after.value_of(other) == before.value_of(other),
{
}

// ---------------------------------------------------------------------------
// Errors.

/// The ways rendering a template can fail.
#[derive(Debug, Clone, PartialEq, Eq)]
pub enum TemplateError {
    /// A placeholder names a variable that has no value.
    MissingVariable { variable: String },
    /// The template is malformed.
    InvalidSyntax { message: String },
    /// A value could not be put in the template.
    SubstitutionError { message: String },
}

impl TemplateError {
    /// The message of the error.
    pub open spec fn spec_message(&self) -> Seq<char> {
        match self {
            TemplateError::MissingVariable { variable } => "Missing required variable: "@ + variable@,
            TemplateError::InvalidSyntax { message } => "Invalid template syntax: "@ + message@,
            TemplateError::SubstitutionError { message } => "Variable substitution failed: "@ + message@,
        }
    }

    /// The message of the error.
    pub fn to_string(&self) -> (r: String)
        ensures
            r@ == self.spec_message(),
    {
        let mut r = String::new();
        match self {
            TemplateError::MissingVariable { variable } => {
                push_str(&mut r, "Missing required variable: ");
                push_str(&mut r, variable.as_str());
            },
            TemplateError::InvalidSyntax { message } => {
                push_str(&mut r, "Invalid template syntax: ");
                push_str(&mut r, message.as_str());
            },
            TemplateError::SubstitutionError { message } => {
                push_str(&mut r, "Variable substitution failed: ");
                push_str(&mut r, message.as_str());
            },
        }
        r
    }

    /// The library error for this template error: invalid input carrying
    /// the message.
    pub fn into_error(self) -> (e: LangExtractError)
        ensures
            e == LangExtractError::InvalidInput(e->InvalidInput_0) && e->InvalidInput_0@ == self.spec_message(),
    {
        LangExtractError::InvalidInput(self.to_string())
    }
}

// ---------------------------------------------------------------------------
// Finding placeholders.

/// The first position at or after `from` where `needle` occurs in `hay`.
pub open spec fn find_chars(hay: Seq<char>, needle: Seq<char>, from: int) -> Option<int>
    decreases hay.len() + 1 - from,
{
    if from < 0 || from + needle.len() > hay.len() {
        None
    } else if hay.subrange(from, from + needle.len()) == needle {
        Some(from)
    } else {
        find_chars(hay, needle, from + 1)
    }
}

/// A found occurrence lies within the text at or after where the search
/// started.
pub proof fn lemma_find_chars(hay: Seq<char>, needle: Seq<char>, from: int)
    ensures
        find_chars(hay, needle, from) matches Some(i) ==> from <= i && i + needle.len() <= hay.len()
            && hay.subrange(i, i + needle.len()) == needle,
    decreases hay.len() + 1 - from,
{
    if !(from < 0 || from + needle.len() > hay.len()) && hay.subrange(from, from + needle.len()) != needle {
        lemma_find_chars(hay, needle, from + 1);
    }
}

fn chars_match_at(hay: &Vec<char>, needle: &Vec<char>, i: usize) -> (r: bool)
    requires
        i + needle@.len() <= hay@.len(),
    ensures
        r == (hay@.subrange(i as int, i + needle@.len()) == needle@),
{
    let hay_len = hay.len();
    let mut j: usize = 0;
    while j < needle.len()
        invariant
            hay_len == hay@.len(),
            i + needle@.len() <= hay@.len(),
            j <= needle@.len(),
            forall|k: int| 0 <= k < j ==> hay@[i + k] == needle@[k],
        decreases needle@.len() - j,
    {
        if hay[i + j] != needle[j] {
            proof {
                assert(hay@.subrange(i as int, i + needle@.len())[j as int] != needle@[j as int]);
            }
            return false;
        }
        j = j + 1;
    }
    proof {
        assert(hay@.subrange(i as int, i + needle@.len()) =~= needle@);
    }
    true
}

pub(crate) fn find_chars_from(hay: &Vec<char>, needle: &Vec<char>, from: usize) -> (r: Option<usize>)
    ensures
        r matches Some(x) ==> find_chars(hay@, needle@, from as int) == Some(x as int),
        r is None ==> find_chars(hay@, needle@, from as int) is None,
{
    if needle.len() > hay.len() {
        return None;
    }
    let last = hay.len() - needle.len();
    let mut i = from;
    while i <= last
        invariant
            last == hay@.len() - needle@.len(),
            from <= i,
            find_chars(hay@, needle@, from as int) == find_chars(hay@, needle@, i as int),
        decreases last + 1 - i,
    {
        if chars_match_at(hay, needle, i) {
            return Some(i);
        }
        if i == last {
            proof {
                assert(find_chars(hay@, needle@, i + 1) is None);
            }
            return None;
        }
        i = i + 1;
    }
    None
}

// ---------------------------------------------------------------------------
// Rendering.

/// How rendering a template ends: with the rendered text, at a placeholder
/// whose variable has no value, or at an opening delimiter without a
/// closing one (at the given position of the text being rendered).
pub enum RenderOutcome {
    Rendered(Seq<char>),
    Missing(Seq<char>),
    Unclosed(Seq<char>, int),
}

/// Rendering `r` from position `pos`: the next placeholder is replaced by
/// its variable's value and rendering resumes after the value; a
/// placeholder without a value is removed when `allow_missing` holds and is
/// an error otherwise; an opening delimiter without a closing one is an
/// error; without further placeholders the text is done.
pub open spec fn render_from(
    r: Seq<char>,
    pos: int,
    open: Seq<char>,
    close: Seq<char>,
    vals: spec_fn(Seq<char>) -> Option<Seq<char>>,
    allow_missing: bool,
) -> RenderOutcome
    decreases r.len() - pos,
{
    if pos < 0 || pos >= r.len() || open.len() == 0 {
        RenderOutcome::Rendered(r)
    } else {
        match find_chars(r, open, pos) {
            None => RenderOutcome::Rendered(r),
            Some(a) => {
                proof {
                    lemma_find_chars(r, open, pos);
                    lemma_find_chars(r, close, a + open.len());
                }
                match find_chars(r, close, a + open.len()) {
                    None => RenderOutcome::Unclosed(r, a),
                    Some(e) => {
                        let name = r.subrange(a + open.len(), e);
                        let rest = r.subrange(e + close.len(), r.len() as int);
                        match vals(name) {
                            Some(v) => render_from(
                                r.subrange(0, a) + v + rest,
                                a + v.len(),
                                open,
                                close,
                                vals,
                                allow_missing,
                            ),
                            None => if allow_missing {
                                render_from(r.subrange(0, a) + rest, a, open, close, vals, allow_missing)
                            } else {
                                RenderOutcome::Missing(name)
                            },
                        }
                    },
                }
            },
        }
    }
}

/// The names of the placeholders of `t` from position `pos` on, each once,
/// in order of first appearance after `seen`, leaving out empty names;
/// scanning stops at an opening delimiter without a closing one.
pub open spec fn variables_from(t: Seq<char>, pos: int, open: Seq<char>, close: Seq<char>, seen: Seq<Seq<char>>) -> Seq<Seq<char>>
    decreases t.len() - pos,
{
    if pos < 0 || pos >= t.len() || open.len() == 0 {
        seen
    } else {
        match find_chars(t, open, pos) {
            None => seen,
            Some(a) => {
                proof {
                    lemma_find_chars(t, open, pos);
                    lemma_find_chars(t, close, a + open.len());
                }
                match find_chars(t, close, a + open.len()) {
                    None => seen,
                    Some(e) => {
                        let name = t.subrange(a + open.len(), e);
                        let seen2 = if name.len() > 0 && !seen.contains(name) { seen.push(name) } else { seen };
                        variables_from(t, e + close.len(), open, close, seen2)
                    },
                }
            },
        }
    }
}

/// The text `Unclosed variable at position {position}`.
pub open spec fn unclosed_message(position: nat) -> Seq<char> {
    "Unclosed variable at position "@ + decimal(position)
}

/// What rendering a template with a template engine gives.
pub open spec fn render_result(
    template: Seq<char>,
    open: Seq<char>,
    close: Seq<char>,
    vals: spec_fn(Seq<char>) -> Option<Seq<char>>,
    allow_missing: bool,
    r: LangExtractResult<String>,
) -> bool {
    match render_from(template, 0, open, close, vals, allow_missing) {
        RenderOutcome::Rendered(s) => r matches Ok(x) && x@ == s,
        RenderOutcome::Missing(name) => r matches Err(LangExtractError::InvalidInput(m)) && m@
            == "Missing required variable: "@ + name,
        RenderOutcome::Unclosed(s, a) => r matches Err(LangExtractError::InvalidInput(m)) && m@ == "Invalid template syntax: "@
            + unclosed_message(vstd::utf8::encode_utf8(s.subrange(0, a)).len()),
    }
}

/// Collects characters into a string.
pub(crate) fn string_of_chars(v: &Vec<char>, from: usize, to: usize) -> (s: String)
    requires
        from <= to <= v@.len(),
    ensures
        s@ == v@.subrange(from as int, to as int),
{
    let mut s = String::new();
    let mut k = from;
    while k < to
        invariant
            from <= k <= to <= v@.len(),
            s@ == v@.subrange(from as int, k as int),
        decreases to - k,
    {
        push_char(&mut s, v[k]);
        proof {
            assert(s@ =~= v@.subrange(from as int, k + 1));
        }
        k = k + 1;
    }
    s
}

/// The characters `v[..a]`, then `middle`, then `v[b..]`.
fn splice(v: &Vec<char>, a: usize, b: usize, middle: &Vec<char>) -> (r: Vec<char>)
    requires
        a <= b <= v@.len(),
    ensures
        r@ == v@.subrange(0, a as int) + middle@ + v@.subrange(b as int, v@.len() as int),
{
    let mut r: Vec<char> = Vec::new();
    let mut k: usize = 0;
    while k < a
        invariant
            k <= a <= b <= v@.len(),
            r@ == v@.subrange(0, k as int),
        decreases a - k,
    {
        r.push(v[k]);
        proof {
            assert(r@ =~= v@.subrange(0, k + 1));
        }
        k = k + 1;
    }
    let mut k: usize = 0;
    while k < middle.len()
        invariant
            a <= b <= v@.len(),
            k <= middle@.len(),
            r@ == v@.subrange(0, a as int) + middle@.subrange(0, k as int),
        decreases middle@.len() - k,
    {
        r.push(middle[k]);
        proof {
            assert(r@ =~= v@.subrange(0, a as int) + middle@.subrange(0, k + 1));
        }
        k = k + 1;
    }
    let mut k: usize = b;
    while k < v.len()
        invariant
            a <= b <= k <= v@.len(),
            r@ == v@.subrange(0, a as int) + middle@ + v@.subrange(b as int, k as int),
        decreases v@.len() - k,
    {
        r.push(v[k]);
        proof {
            assert(r@ =~= v@.subrange(0, a as int) + middle@ + v@.subrange(b as int, k + 1));
        }
        k = k + 1;
    }
    proof {
        assert(middle@.subrange(0, middle@.len() as int) =~= middle@);
    }
    r
}

/// Fills placeholders of the form `{name}` (with configurable delimiters).
#[derive(Debug, Clone)]
pub struct TemplateEngine {
    /// The opening delimiter of a placeholder.
    pub var_start: String,
    /// The closing delimiter of a placeholder.
    pub var_end: String,
    /// Whether a placeholder without a value is removed rather than refused.
    pub allow_missing: bool,
}

impl Default for TemplateEngine {
    fn default() -> (e: Self)
        ensures
            e.var_start@ == "{"@,
            e.var_end@ == "}"@,
            !e.allow_missing,
    {
        TemplateEngine { var_start: "{".to_string(), var_end: "}".to_string(), allow_missing: false }
    }
}

impl TemplateEngine {
    /// An engine with `{` and `}` that refuses missing variables.
    pub fn new() -> (e: Self)
        ensures
            e.var_start@ == "{"@,
            e.var_end@ == "}"@,
            !e.allow_missing,
    {
        Self::default()
    }

    /// An engine with `{` and `}` that removes placeholders without a value.
    pub fn lenient() -> (e: Self)
        ensures
            e.var_start@ == "{"@,
            e.var_end@ == "}"@,
            e.allow_missing,
    {
        TemplateEngine { var_start: "{".to_string(), var_end: "}".to_string(), allow_missing: true }
    }

    /// Fills the placeholders of `template`; see [`render_from`].
    pub fn render(&self, template: &str, variables: &Variables) -> (r: LangExtractResult<String>)
        requires
            self.var_start@.len() > 0,
        ensures
            render_result(template@, self.var_start@, self.var_end@, variables.values(), self.allow_missing, r),
    {
        let open = chars_of(self.var_start.as_str());
        let close = chars_of(self.var_end.as_str());
        let mut result = chars_of(template);
        let ghost vars = variables.values();
        let mut pos: usize = 0;
        while pos < result.len()
            invariant
                open@ == self.var_start@,
                close@ == self.var_end@,
                open@.len() > 0,
                vars == variables.values(),
                render_from(template@, 0, open@, close@, vars, self.allow_missing) == render_from(
                    result@,
                    pos as int,
                    open@,
                    close@,
                    vars,
                    self.allow_missing,
                ),
            decreases result@.len() - pos,
        {
            let ghost r = result@;
            proof {
                lemma_find_chars(r, open@, pos as int);
            }
            match find_chars_from(&result, &open, pos) {
                Some(abs_start) => {
                    let search_from = abs_start + open.len();
                    proof {
                        lemma_find_chars(r, close@, search_from as int);
                    }
                    match find_chars_from(&result, &close, search_from) {
                        Some(abs_end) => {
                            let name = string_of_chars(&result, search_from, abs_end);
                            let after = abs_end + close.len();
                            match variables.get(name.as_str()) {
                                Some(value) => {
                                    let value_chars = chars_of(value.as_str());
                                    result = splice(&result, abs_start, after, &value_chars);
                                    let new_len = result.len();
                                    pos = abs_start + value_chars.len();
                                },
                                None => {
                                    if self.allow_missing {
                                        let empty: Vec<char> = Vec::new();
                                        result = splice(&result, abs_start, after, &empty);
                                        proof {
                                            assert(r.subrange(0, abs_start as int) + empty@ + r.subrange(after as int, r.len() as int)
                                                =~= r.subrange(0, abs_start as int) + r.subrange(after as int, r.len() as int));
                                        }
                                        pos = abs_start;
                                    } else {
                                        let err = TemplateError::MissingVariable { variable: name };
                                        return Err(err.into_error());
                                    }
                                },
                            }
                        },
                        None => {
                            let prefix = string_of_chars(&result, 0, abs_start);
                            let position = byte_len(prefix.as_str());
                            let mut message = String::new();
                            push_str(&mut message, "Unclosed variable at position ");
                            let digits = decimal_string(position);
                            push_str(&mut message, digits.as_str());
                            let err = TemplateError::InvalidSyntax { message };
                            return Err(err.into_error());
                        },
                    }
                },
                None => {
                    proof {
                        assert(render_from(r, pos as int, open@, close@, vars, self.allow_missing) == RenderOutcome::Rendered(r));
                    }
                    pos = result.len();
                },
            }
        }
        proof {
            assert(render_from(result@, pos as int, open@, close@, vars, self.allow_missing) == RenderOutcome::Rendered(result@));
        }
        let rendered = string_of_chars(&result, 0, result.len());
        proof {
            assert(result@.subrange(0, result@.len() as int) =~= result@);
        }
        Ok(rendered)
    }
}


/// The first of the names without a value, if any.
pub open spec fn first_missing(names: Seq<Seq<char>>, vals: spec_fn(Seq<char>) -> Option<Seq<char>>) -> Option<Seq<char>>
    decreases names.len(),
{
    if names.len() == 0 {
        None
    } else if vals(names[0]) is None {
        Some(names[0])
    } else {
        first_missing(names.drop_first(), vals)
    }
}

impl TemplateEngine {
    /// The names of the placeholders of `template`, each once, in order of
    /// first appearance; see [`variables_from`].
    pub fn extract_variables(&self, template: &str) -> (r: Vec<String>)
        requires
            self.var_start@.len() > 0,
        ensures
            r@.map_values(|s: String| s@) == variables_from(template@, 0, self.var_start@, self.var_end@, seq![]),
    {
        let open = chars_of(self.var_start.as_str());
        let close = chars_of(self.var_end.as_str());
        let t = chars_of(template);
        let mut variables: Vec<String> = Vec::new();
        proof {
            assert(variables@.map_values(|s: String| s@) =~= seq![]);
        }
        let mut pos: usize = 0;
        while pos < t.len()
            invariant
                open@ == self.var_start@,
                close@ == self.var_end@,
                open@.len() > 0,
                t@ == template@,
                variables_from(t@, 0, open@, close@, seq![]) == variables_from(
                    t@,
                    pos as int,
                    open@,
                    close@,
                    variables@.map_values(|s: String| s@),
                ),
            decreases t@.len() - pos,
        {
            let ghost seen = variables@.map_values(|s: String| s@);
            proof {
                lemma_find_chars(t@, open@, pos as int);
            }
            match find_chars_from(&t, &open, pos) {
                Some(abs_start) => {
                    let search_from = abs_start + open.len();
                    proof {
                        lemma_find_chars(t@, close@, search_from as int);
                    }
                    match find_chars_from(&t, &close, search_from) {
                        Some(abs_end) => {
                            let name = string_of_chars(&t, search_from, abs_end);
                            let mut present = false;
                            let mut k: usize = 0;
                            while k < variables.len()
                                invariant
                                    k <= variables@.len(),
                                    seen == variables@.map_values(|s: String| s@),
                                    present == (exists|j: int| 0 <= j < k && seen[j] == name@),
                                decreases variables@.len() - k,
                            {
                                proof {
                                    assert(seen[k as int] == variables@[k as int]@);
                                }
                                if strings_equal(variables[k].as_str(), name.as_str()) {
                                    present = true;
                                }
                                k = k + 1;
                            }
                            proof {
                                if present {
                                    let j = choose|j: int| 0 <= j < k && seen[j] == name@;
                                    assert(seen.contains(name@));
                                } else if seen.contains(name@) {
                                    let j = choose|j: int| 0 <= j < seen.len() && seen[j] == name@;
                                    assert(false);
                                }
                            }
                            if !name.as_str().is_empty() && !present {
                                variables.push(name);
                                proof {
                                    assert(variables@.map_values(|s: String| s@) =~= seen.push(name@));
                                }
                            }
                            pos = abs_end + close.len();
                        },
                        None => {
                            pos = t.len();
                        },
                    }
                },
                None => {
                    pos = t.len();
                },
            }
        }
        variables
    }

    /// Checks that every placeholder of `template` has a value; always
    /// succeeds for an engine that allows missing variables.
    pub fn validate(&self, template: &str, variables: &Variables) -> (r: LangExtractResult<()>)
        requires
            !self.allow_missing ==> self.var_start@.len() > 0,
        ensures
            self.allow_missing ==> r is Ok,
            !self.allow_missing ==> match first_missing(
                variables_from(template@, 0, self.var_start@, self.var_end@, seq![]),
                variables.values(),
            ) {
                Some(name) => r matches Err(LangExtractError::InvalidInput(m)) && m@ == "Missing required variable: "@
                    + name,
                None => r is Ok,
            },
    {
        if self.allow_missing {
            return Ok(());
        }
        let required = self.extract_variables(template);
        let ghost names = required@.map_values(|s: String| s@);
        proof {
            assert(names.subrange(0, names.len() as int) =~= names);
        }
        let mut i: usize = 0;
        while i < required.len()
            invariant
                !self.allow_missing,
                names == variables_from(template@, 0, self.var_start@, self.var_end@, seq![]),
                i <= required@.len(),
                names == required@.map_values(|s: String| s@),
                first_missing(names, variables.values()) == first_missing(names.subrange(i as int, names.len() as int), variables.values()),
            decreases required@.len() - i,
        {
            let ghost rest = names.subrange(i as int, names.len() as int);
            proof {
                assert(rest[0] == required@[i as int]@);
                assert(rest.drop_first() =~= names.subrange(i + 1, names.len() as int));
            }
            if !variables.contains_key(required[i].as_str()) {
                let err = TemplateError::MissingVariable { variable: required[i].clone() };
                return Err(err.into_error());
            }
            i = i + 1;
        }
        proof {
            assert(names.subrange(i as int, names.len() as int) =~= seq![]);
        }
        Ok(())
    }
}

// ---------------------------------------------------------------------------
// Fragments.

/// The pieces prompts are assembled from.
pub struct TemplateFragments;

impl TemplateFragments {
    /// The opening of an instruction.
    pub fn instruction_prefix() -> (r: &'static str)
        ensures
            r@ == "You are an expert information extraction assistant. "@,
    {
        "You are an expert information extraction assistant. "
    }

    /// Asks for JSON output.
    pub fn json_format_instruction() -> (r: &'static str)
        ensures
            r@ == "Respond with valid JSON that matches the structure shown in the examples."@,
    {
        "Respond with valid JSON that matches the structure shown in the examples."
    }

    /// Asks for YAML output.
    pub fn yaml_format_instruction() -> (r: &'static str)
        ensures
            r@ == "Respond with valid YAML that matches the structure shown in the examples."@,
    {
        "Respond with valid YAML that matches the structure shown in the examples."
    }

    /// Asks for step-by-step work.
    pub fn reasoning_instruction() -> (r: &'static str)
        ensures
            r@ == reasoning_instruction_text(),
    {
        "\n\nThink step by step:\n1. Read the text carefully\n2. Identify the requested information\n3. Extract it in the exact format shown in examples"
    }

    /// The header of the examples section.
    pub fn examples_header() -> (r: &'static str)
        ensures
            r@ == "\n\nExamples:\n"@,
    {
        "\n\nExamples:\n"
    }

    /// The header of the input section.
    pub fn input_header() -> (r: &'static str)
        ensures
            r@ == "\n\nNow extract information from this text:\n\nInput: "@,
    {
        "\n\nNow extract information from this text:\n\nInput: "
    }

    /// The header of the output section, naming the format.
    pub fn output_header(format: FormatType) -> (r: String)
        ensures
            r@ == output_header_text(format),
    {
        match format {
            FormatType::Json => "\n\nOutput (JSON format):".to_string(),
            FormatType::Yaml => "\n\nOutput (YAML format):".to_string(),
        }
    }
}

/// The header of the output section for a format.
pub open spec fn output_header_text(format: FormatType) -> Seq<char> {
    match format {
        FormatType::Json => "\n\nOutput (JSON format):"@,
        FormatType::Yaml => "\n\nOutput (YAML format):"@,
    }
}

/// The instruction asking for a format.
pub open spec fn format_instruction_text(format: FormatType) -> Seq<char> {
    match format {
        FormatType::Json => "Respond with valid JSON that matches the structure shown in the examples."@,
        FormatType::Yaml => "Respond with valid YAML that matches the structure shown in the examples."@,
    }
}

// ---------------------------------------------------------------------------
// Template builder.

/// The parts of a template: instruction, format instruction, context
/// section, examples section, reasoning and input section.
pub type BuilderParts = (Seq<char>, Seq<char>, Seq<char>, Seq<char>, Seq<char>, Seq<char>);

/// The reasoning instruction the builder adds.
pub open spec fn reasoning_instruction_text() -> Seq<char> {
    "\n\nThink step by step:\n1. Read the text carefully\n2. Identify the requested information\n3. Extract it in the exact format shown in examples"@
}

/// The parts with the reasoning part set: the reasoning instruction when
/// enabled, empty otherwise; the other parts stay.
pub open spec fn reasoning_parts(p: BuilderParts, enabled: bool) -> BuilderParts {
    (p.0, p.1, p.2, p.3, if enabled { reasoning_instruction_text() } else { Seq::<char>::empty() }, p.5)
}

/// The parts of a new builder for a format: the standard instruction and
/// format instruction, `{additional_context}` and `{examples}` sections, no
/// reasoning, and an input section with `{input_text}` and the output header.
pub open spec fn standard_parts(format_type: FormatType) -> BuilderParts {
    (
        "You are an expert information extraction assistant. "@,
        format_instruction_text(format_type),
        "{additional_context}"@,
        "{examples}"@,
        Seq::<char>::empty(),
        "\n\nNow extract information from this text:\n\nInput: "@ + "{input_text}"@ + output_header_text(format_type),
    )
}

/// None of the parts but the reasoning holds the digit `1`, which the
/// reasoning instruction holds.
pub open spec fn parts_without_one(p: BuilderParts) -> bool {
    lacks(p.0, '1') && lacks(p.1, '1') && lacks(p.2, '1') && lacks(p.3, '1') && lacks(p.5, '1')
}

/// `needle` occurs in `hay`.
pub open spec fn occurs_in(hay: Seq<char>, needle: Seq<char>) -> bool {
    exists|i: int| 0 <= i && i + needle.len() <= hay.len() && #[trigger] hay.subrange(i, i + needle.len()) == needle
}

/// A template built with reasoning off lacks the reasoning instruction when
/// none of its other parts holds the digit `1`: the instruction holds it.
pub proof fn lemma_reasoning_absent(off: TemplateBuilder)
    requires
        off.parts().4.len() == 0,
        parts_without_one(off.parts()),
    ensures
        !occurs_in(off.template_text(), reasoning_instruction_text()),
{
    let p = off.parts();
    let r = reasoning_instruction_text();
    reveal_strlit("\n\nThink step by step:\n1. Read the text carefully\n2. Identify the requested information\n3. Extract it in the exact format shown in examples");
    reveal_strlit("{task_description}\n\n");
    reveal_strlit("\n");
    let lead = "{task_description}\n\n"@;
    assert(lacks(lead, '1'));
    assert(lacks("\n"@, '1'));
    assert(lacks(p.4, '1'));
    lemma_lacks_concat(lead, p.0, '1');
    lemma_lacks_concat(lead + p.0, p.1, '1');
    lemma_lacks_concat(lead + p.0 + p.1, p.2, '1');
    lemma_lacks_concat(lead + p.0 + p.1 + p.2, p.3, '1');
    lemma_lacks_concat(lead + p.0 + p.1 + p.2 + p.3, p.4, '1');
    lemma_lacks_concat(lead + p.0 + p.1 + p.2 + p.3 + p.4, p.5, '1');
    lemma_lacks_concat(lead + p.0 + p.1 + p.2 + p.3 + p.4 + p.5, "\n"@, '1');
    let t = off.template_text();
    assert(lacks(t, '1'));
    assert(r[22] == '1');
    if occurs_in(t, r) {
        let i = choose|i: int| 0 <= i && i + r.len() <= t.len() && #[trigger] t.subrange(i, i + r.len()) == r;
        assert(t.subrange(i, i + r.len())[22] == t[i + 22]);
    }
}

/// The standard parts hold no digit `1`, so a new builder's template holds
/// the reasoning instruction exactly when reasoning is turned on.
pub proof fn lemma_standard_reasoning(format_type: FormatType, built: TemplateBuilder, enabled: bool)
    requires
        built.parts() == reasoning_parts(standard_parts(format_type), enabled),
    ensures
        parts_without_one(standard_parts(format_type)),
        occurs_in(built.template_text(), reasoning_instruction_text()) == enabled,
{
    let p = standard_parts(format_type);
    reveal_strlit("You are an expert information extraction assistant. ");
    reveal_strlit("Respond with valid JSON that matches the structure shown in the examples.");
    reveal_strlit("Respond with valid YAML that matches the structure shown in the examples.");
    reveal_strlit("{additional_context}");
    reveal_strlit("{examples}");
    reveal_strlit("\n\nNow extract information from this text:\n\nInput: ");
    reveal_strlit("{input_text}");
    reveal_strlit("\n\nOutput (JSON format):");
    reveal_strlit("\n\nOutput (YAML format):");
    assert(lacks(p.0, '1'));
    assert(lacks(p.1, '1'));
    assert(lacks(p.2, '1'));
    assert(lacks(p.3, '1'));
    let a = "\n\nNow extract information from this text:\n\nInput: "@;
    assert(lacks(a, '1'));
    assert(lacks("{input_text}"@, '1'));
    assert(lacks(output_header_text(format_type), '1'));
    lemma_lacks_concat(a, "{input_text}"@, '1');
    lemma_lacks_concat(a + "{input_text}"@, output_header_text(format_type), '1');
    if enabled {
        let r = reasoning_instruction_text();
        let q = built.parts();
        let head = "{task_description}\n\n"@ + q.0 + q.1 + q.2 + q.3;
        assert(built.template_text() =~= head + r + (q.5 + "\n"@));
        assert(built.template_text().subrange(head.len() as int, head.len() + r.len() as int) =~= r);
    } else {
        lemma_reasoning_absent(built);
    }
}

/// Turning reasoning on puts the reasoning instruction into the template
/// right before the input section, where the template then holds it;
/// turning it off takes it out again. For builders `on`, `off` and
/// `on_off` made from `b` by enabling, by disabling, and by enabling then
/// disabling reasoning: `on` builds `off`'s template with the instruction
/// inserted before the input section and its final newline, and `on_off`
/// builds exactly what `off` builds.
pub proof fn lemma_reasoning_toggle(b: TemplateBuilder, on: TemplateBuilder, off: TemplateBuilder, on_off: TemplateBuilder)
    requires
        on.parts() == reasoning_parts(b.parts(), true),
        off.parts() == reasoning_parts(b.parts(), false),
        on_off.parts() == reasoning_parts(on.parts(), false),
    ensures
        ({
            let t = off.template_text();
            let k = t.len() - off.parts().5.len() - 1;
            on.template_text() == t.subrange(0, k) + reasoning_instruction_text() + t.subrange(k, t.len() as int)
        }),
        occurs_in(on.template_text(), reasoning_instruction_text()),
        off.parts().4.len() == 0,
        parts_without_one(b.parts()) ==> !occurs_in(off.template_text(), reasoning_instruction_text()),
        on_off.template_text() == off.template_text(),
{
    if parts_without_one(b.parts()) {
        lemma_reasoning_absent(off);
    }
    let p = b.parts();
    let r = reasoning_instruction_text();
    let head = "{task_description}\n\n"@ + p.0 + p.1 + p.2 + p.3;
    let tail = p.5 + "\n"@;
    let t = off.template_text();
    assert(t =~= head + tail);
    assert(on.template_text() =~= head + r + tail);
    let k = t.len() - p.5.len() - 1;
    reveal_strlit("\n");
    assert(k == head.len());
    assert(t.subrange(0, k) =~= head);
    assert(t.subrange(k, t.len() as int) =~= tail);
    let o = on.template_text();
    assert(o.subrange(head.len() as int, head.len() + r.len() as int) =~= r);
    assert(on_off.parts() == off.parts());
}

/// Assembles a prompt template from fragments.
pub struct TemplateBuilder {
    instruction: String,
    format_instruction: String,
    reasoning: String,
    examples_section: String,
    context_section: String,
    input_section: String,
    output_section: String,
    engine: TemplateEngine,
}

impl TemplateBuilder {
    /// The parts of the template: instruction, format instruction, context
    /// section, examples section, reasoning and input section.
    pub closed spec fn parts(&self) -> BuilderParts {
        (
            self.instruction@,
            self.format_instruction@,
            self.context_section@,
            self.examples_section@,
            self.reasoning@,
            self.input_section@,
        )
    }

    /// The template the builder makes: a task description placeholder, a
    /// blank line, then the parts in order, and a newline.
    pub open spec fn template_text(&self) -> Seq<char> {
        let p = self.parts();
        "{task_description}\n\n"@ + p.0 + p.1 + p.2 + p.3 + p.4 + p.5 + "\n"@
    }

    /// A builder for the given format: the standard instruction and format
    /// instruction, `{additional_context}` and `{examples}` sections, no
    /// reasoning, and an input section with `{input_text}` and the output
    /// header.
    pub fn new(format_type: FormatType) -> (b: Self)
        ensures
            b.parts() == standard_parts(format_type),
    {
        let format_instruction = match format_type {
            FormatType::Json => TemplateFragments::json_format_instruction(),
            FormatType::Yaml => TemplateFragments::yaml_format_instruction(),
        };
        let mut input_section = String::new();
        push_str(&mut input_section, TemplateFragments::input_header());
        push_str(&mut input_section, "{input_text}");
        let header = TemplateFragments::output_header(format_type);
        push_str(&mut input_section, header.as_str());
        let b = TemplateBuilder {
            instruction: TemplateFragments::instruction_prefix().to_string(),
            format_instruction: format_instruction.to_string(),
            reasoning: String::new(),
            examples_section: "{examples}".to_string(),
            context_section: "{additional_context}".to_string(),
            input_section,
            output_section: String::new(),
            engine: TemplateEngine::lenient(),
        };
        proof {
            assert(b.reasoning@ =~= Seq::<char>::empty());
        }
        b
    }

    /// Replaces the instruction.
    pub fn with_instruction(self, instruction: &str) -> (b: Self)
        ensures
            b.parts() == (instruction@, self.parts().1, self.parts().2, self.parts().3, self.parts().4, self.parts().5),
    {
        let mut b = self;
        b.instruction = instruction.to_string();
        b
    }

    /// Adds or removes the reasoning instruction; see [`reasoning_parts`].
    pub fn with_reasoning(self, enabled: bool) -> (b: Self)
        ensures
            b.parts() == reasoning_parts(self.parts(), enabled),
    {
        let mut b = self;
        if enabled {
            b.reasoning = TemplateFragments::reasoning_instruction().to_string();
        } else {
            b.reasoning = String::new();
        }
        proof {
            if !enabled {
                assert(b.reasoning@ =~= Seq::<char>::empty());
            }
        }
        b
    }

    /// Replaces the examples section.
    pub fn with_custom_examples_section(self, section: &str) -> (b: Self)
        ensures
            b.parts() == (self.parts().0, self.parts().1, self.parts().2, section@, self.parts().4, self.parts().5),
    {
        let mut b = self;
        b.examples_section = section.to_string();
        b
    }

    /// The template; see [`TemplateBuilder::template_text`].
    pub fn build(&self) -> (r: String)
        ensures
            r@ == self.template_text(),
    {
        let mut r = String::new();
        push_str(&mut r, "{task_description}\n\n");
        push_str(&mut r, self.instruction.as_str());
        push_str(&mut r, self.format_instruction.as_str());
        push_str(&mut r, self.context_section.as_str());
        push_str(&mut r, self.examples_section.as_str());
        push_str(&mut r, self.reasoning.as_str());
        push_str(&mut r, self.input_section.as_str());
        push_str(&mut r, "\n");
        proof {
            assert(r@ =~= self.template_text());
        }
        r
    }

    /// The template rendered with `variables`, placeholders without a value
    /// removed.
    pub fn build_with_variables(self, variables: Variables) -> (r: LangExtractResult<String>)
        ensures
            render_result(self.template_text(), "{"@, "}"@, variables.values(), true, r),
    {
        let template = self.build();
        let engine = TemplateEngine::lenient();
        proof {
            reveal_strlit("{");
        }
        engine.render(template.as_str(), &variables)
    }
}


// ---------------------------------------------------------------------------
// Example formatting.

/// The attributes of an extraction as JSON: an object of them, or `null`
/// without attributes.
pub open spec fn attributes_json(e: Extraction) -> Value {
    match e.attributes {
        Some(a) => crate::json::json_object_value(crate::json::entries_view(a@)),
        None => crate::json::json_number_value(None),
    }
}

/// The JSON object of one extraction of an example: its class mapped to its
/// text, then its class followed by `suffix` mapped to its attributes.
pub open spec fn extraction_payload(e: Extraction, suffix: Seq<char>) -> Value {
    crate::json::json_object_value(
        seq![
            (e.extraction_class@, crate::schema::json_string_value(e.extraction_text@)),
            (e.extraction_class@ + suffix, attributes_json(e)),
        ],
    )
}

/// The JSON value listing an example's extractions, one object each; see
/// [`extraction_payload`].
pub open spec fn payload_value(extractions: Seq<Extraction>, suffix: Seq<char>) -> Value {
    crate::json::json_array_value(extractions.map_values(|e: Extraction| extraction_payload(e, suffix)))
}

fn attributes_value(e: &Extraction) -> (v: Value)
    ensures
        v == attributes_json(*e),
{
    match &e.attributes {
        Some(a) => {
            let mut entries: Vec<(String, Value)> = Vec::new();
            let mut i: usize = 0;
            while i < a.len()
                invariant
                    i <= a@.len(),
                    entries@ == a@.subrange(0, i as int),
                decreases a@.len() - i,
            {
                entries.push((a[i].0.clone(), a[i].1.clone()));
                proof {
                    assert(a@.subrange(0, i + 1) =~= a@.subrange(0, i as int).push(a@[i as int]));
                }
                i = i + 1;
            }
            proof {
                assert(a@.subrange(0, a@.len() as int) =~= a@);
            }
            crate::json::json_object(entries)
        },
        None => crate::json::json_number(None),
    }
}

/// The JSON value listing an example's extractions; see [`payload_value`].
fn example_payload(extractions: &[Extraction], suffix: &str) -> (v: Value)
    ensures
        v == payload_value(extractions@, suffix@),
{
    let mut items: Vec<Value> = Vec::new();
    let mut i: usize = 0;
    while i < extractions.len()
        invariant
            i <= extractions@.len(),
            items@ == extractions@.subrange(0, i as int).map_values(|e: Extraction| extraction_payload(e, suffix@)),
        decreases extractions@.len() - i,
    {
        let e = &extractions[i];
        let mut key = e.extraction_class.clone();
        push_str(&mut key, suffix);
        let mut obj: Vec<(String, Value)> = Vec::new();
        obj.push((e.extraction_class.clone(), crate::schema::json_string(e.extraction_text.clone())));
        obj.push((key, attributes_value(e)));
        proof {
            assert(crate::json::entries_view(obj@) =~= seq![
                (e.extraction_class@, crate::schema::json_string_value(e.extraction_text@)),
                (e.extraction_class@ + suffix@, attributes_json(*e)),
            ]);
        }
        let item = crate::json::json_object(obj);
        items.push(item);
        proof {
            assert(extractions@.subrange(0, i + 1).map_values(|e: Extraction| extraction_payload(e, suffix@))
                =~= extractions@.subrange(0, i as int).map_values(|e: Extraction| extraction_payload(e, suffix@)).push(item));
        }
        i = i + 1;
    }
    proof {
        assert(extractions@.subrange(0, extractions@.len() as int) =~= extractions@);
    }
    crate::json::json_array(items)
}

/// The pretty-printed JSON text of a value, or the error message.
pub uninterp spec fn pretty_json(v: Value) -> Result<Seq<char>, Seq<char>>;

/// `serde_json::to_string_pretty`. Stated: the text, or the error's
/// message, is [`pretty_json`] of the value.
#[verifier::external_body]
pub(crate) fn json_pretty(v: &Value) -> (r: Result<String, String>)
    ensures
        match r {
            Ok(s) => pretty_json(*v) == Ok::<Seq<char>, Seq<char>>(s@),
            Err(m) => pretty_json(*v) == Err::<Seq<char>, Seq<char>>(m@),
        },
{
    serde_json::to_string_pretty(v).map_err(|e| e.to_string())
}

/// The YAML text of a value, or the error message.
pub uninterp spec fn yaml_text(v: Value) -> Result<Seq<char>, Seq<char>>;

/// `serde_yaml::to_string`. Stated: the text, or the error's message, is
/// [`yaml_text`] of the value.
#[verifier::external_body]
fn yaml_string(v: &Value) -> (r: Result<String, String>)
    ensures
        match r {
            Ok(s) => yaml_text(*v) == Ok::<Seq<char>, Seq<char>>(s@),
            Err(m) => yaml_text(*v) == Err::<Seq<char>, Seq<char>>(m@),
        },
{
    serde_yaml::to_string(v).map_err(|e| e.to_string())
}

/// The text of one example's extractions in a format, or the message of
/// the error formatting them.
pub open spec fn example_output(format: FormatType, extractions: Seq<Extraction>) -> Result<Seq<char>, Seq<char>> {
    let v = payload_value(extractions, "_attributes"@);
    match format {
        FormatType::Json => match pretty_json(v) {
            Ok(s) => Ok(s),
            Err(m) => Err("Variable substitution failed: "@ + "Failed to format JSON: "@ + m),
        },
        FormatType::Yaml => match yaml_text(v) {
            Ok(s) => Ok(s),
            Err(m) => Err("Variable substitution failed: "@ + "Failed to format YAML: "@ + m),
        },
    }
}

/// One example in the examples section: its number, text and output.
pub open spec fn example_block(k: nat, text: Seq<char>, output: Seq<char>) -> Seq<char> {
    "\nExample "@ + decimal(k + 1) + ":\n"@ + "Input: "@ + text + "\n"@ + "Output: "@ + output + "\n"@
}

/// The blocks of the examples from the `i`th to before the `n`th, or the
/// first error.
pub open spec fn example_blocks(format: FormatType, exs: Seq<ExampleData>, i: int, n: int) -> Result<Seq<char>, Seq<char>>
    decreases n - i,
{
    if i < 0 || i >= n || i >= exs.len() {
        Ok(seq![])
    } else {
        match example_output(format, exs[i].extractions@) {
            Err(m) => Err(m),
            Ok(s) => match example_blocks(format, exs, i + 1, n) {
                Ok(rest) => Ok(example_block(i as nat, exs[i].text@, s) + rest),
                Err(m) => Err(m),
            },
        }
    }
}

/// The examples section for examples: nothing for no examples; else the
/// header and the blocks of the first examples (at most `max`), or the
/// message of the first error.
pub open spec fn examples_outcome(format: FormatType, max: Option<usize>, exs: Seq<ExampleData>) -> Result<Seq<char>, Seq<char>> {
    if exs.len() == 0 {
        Ok(seq![])
    } else {
        let n = match max {
            Some(m) => if m < exs.len() { m as int } else { exs.len() as int },
            None => exs.len() as int,
        };
        match example_blocks(format, exs, 0, n) {
            Ok(b) => Ok("\n\nExamples:\n"@ + b),
            Err(m) => Err(m),
        }
    }
}

/// The blocks of the examples before the `n`th read only those examples.
proof fn lemma_example_blocks_prefix(format: FormatType, exs: Seq<ExampleData>, k: int, i: int, n: int)
    requires
        0 <= i,
        n <= k <= exs.len(),
    ensures
        example_blocks(format, exs, i, n) == example_blocks(format, exs.take(k), i, n),
    decreases n - i,
{
    if i < n {
        lemma_example_blocks_prefix(format, exs, k, i + 1, n);
        assert(exs.take(k)[i] == exs[i]);
    }
}

/// A formatter limited to `m` examples, `m` at least one, formats what an
/// unlimited one makes of the first `m` examples (of all of them when
/// there are fewer); limited to none, it gives only the header when there
/// are examples.
pub proof fn lemma_example_limit(format: FormatType, exs: Seq<ExampleData>, m: usize)
    ensures
        m >= 1 ==> examples_outcome(format, Some(m), exs) == examples_outcome(
            format,
            None,
            exs.take(if m < exs.len() { m as int } else { exs.len() as int }),
        ),
        m == 0 && exs.len() > 0 ==> examples_outcome(format, Some(m), exs) == Ok::<Seq<char>, Seq<char>>("\n\nExamples:\n"@),
{
    let k = if m < exs.len() { m as int } else { exs.len() as int };
    lemma_example_blocks_prefix(format, exs, k, 0, k);
    if m == 0 && exs.len() > 0 {
        assert("\n\nExamples:\n"@ + Seq::<char>::empty() =~= "\n\nExamples:\n"@);
    }
}

/// What formatting examples gives; see [`examples_outcome`].
pub open spec fn examples_result(format: FormatType, max: Option<usize>, exs: Seq<ExampleData>, r: LangExtractResult<String>) -> bool {
    match examples_outcome(format, max, exs) {
        Ok(s) => r matches Ok(x) && x@ == s,
        Err(m) => r matches Err(LangExtractError::InvalidInput(x)) && x@ == m,
    }
}

/// Formats examples for a prompt in JSON or YAML.
pub struct ExampleFormatter {
    format_type: FormatType,
    max_examples: Option<usize>,
}

impl ExampleFormatter {
    /// The output format.
    pub closed spec fn format(&self) -> FormatType {
        self.format_type
    }

    /// The most examples used.
    pub closed spec fn limit(&self) -> Option<usize> {
        self.max_examples
    }

    /// A formatter for the format, using all examples.
    pub fn new(format_type: FormatType) -> (f: Self)
        ensures
            f.format() == format_type,
            f.limit() is None,
    {
        ExampleFormatter { format_type, max_examples: None }
    }

    /// Uses at most `max` examples.
    pub fn with_max_examples(self, max: usize) -> (f: Self)
        ensures
            f.format() == self.format(),
            f.limit() == Some(max),
    {
        ExampleFormatter { format_type: self.format_type, max_examples: Some(max) }
    }

    /// The examples section; see [`examples_result`].
    pub fn format_examples(&self, examples: &[ExampleData]) -> (r: LangExtractResult<String>)
        ensures
            examples_result(self.format(), self.limit(), examples@, r),
    {
        if examples.len() == 0 {
            let empty = String::new();
            proof {
                assert(empty@ =~= seq![]);
            }
            return Ok(empty);
        }
        let n = match self.max_examples {
            Some(max) => if max < examples.len() { max } else { examples.len() },
            None => examples.len(),
        };
        let mut result = String::new();
        push_str(&mut result, TemplateFragments::examples_header());
        let ghost head = result@;
        let mut i: usize = 0;
        while i < n
            invariant
                n <= examples@.len(),
                n as int == match self.limit() {
                    Some(m) => if m < examples@.len() { m as int } else { examples@.len() as int },
                    None => examples@.len() as int,
                },
                examples@.len() > 0,
                i <= n,
                example_blocks(self.format(), examples@, 0, n as int) == match example_blocks(self.format(), examples@, i as int, n as int) {
                    Ok(rest) => Ok(result@.subrange(head.len() as int, result@.len() as int) + rest),
                    Err(m) => Err::<Seq<char>, Seq<char>>(m),
                },
                result@.subrange(0, head.len() as int) == head,
                head.len() <= result@.len(),
                head == "\n\nExamples:\n"@,
            decreases n - i,
        {
            let example = &examples[i];
            let ghost before = result@;
            let single = match self.format_single_example(example) {
                Ok(s) => s,
                Err(e) => return Err(e),
            };
            push_str(&mut result, "\nExample ");
            push_decimal(&mut result, i + 1);
            push_str(&mut result, ":\n");
            push_str(&mut result, "Input: ");
            push_str(&mut result, example.text.as_str());
            push_str(&mut result, "\n");
            push_str(&mut result, "Output: ");
            push_str(&mut result, single.as_str());
            push_str(&mut result, "\n");
            proof {
                let block = example_block(i as nat, example.text@, single@);
                let old_sub = before.subrange(head.len() as int, before.len() as int);
                let bi = example_blocks(self.format(), examples@, i as int, n as int);
                let bi1 = example_blocks(self.format(), examples@, i + 1, n as int);
                assert(example_output(self.format(), examples@[i as int].extractions@) == Ok::<Seq<char>, Seq<char>>(single@));
                assert(bi == match bi1 {
                    Ok(rest) => Ok(block + rest),
                    Err(m) => Err::<Seq<char>, Seq<char>>(m),
                });
                match bi1 {
                    Ok(rest) => {
                        assert(old_sub + (block + rest) =~= (old_sub + block) + rest);
                    },
                    Err(m) => {},
                }
                assert(result@ =~= before + block);
                assert(result@.subrange(head.len() as int, result@.len() as int) =~= before.subrange(
                    head.len() as int,
                    before.len() as int,
                ) + block);
                assert(result@.subrange(0, head.len() as int) =~= before.subrange(0, head.len() as int));
            }
            i = i + 1;
        }
        proof {
            assert(result@ =~= head + result@.subrange(head.len() as int, result@.len() as int));
            assert(result@.subrange(head.len() as int, result@.len() as int) + seq![] =~= result@.subrange(
                head.len() as int,
                result@.len() as int,
            ));
        }
        Ok(result)
    }

    /// One example's extractions in the formatter's format.
    fn format_single_example(&self, example: &ExampleData) -> (r: LangExtractResult<String>)
        ensures
            match example_output(self.format(), example.extractions@) {
                Ok(s) => r matches Ok(x) && x@ == s,
                Err(m) => r matches Err(LangExtractError::InvalidInput(x)) && x@ == m,
            },
    {
        let payload = example_payload(example.extractions.as_slice(), ATTRIBUTES_SUFFIX);
        match self.format_type {
            FormatType::Json => self.format_as_json(payload),
            FormatType::Yaml => self.format_as_yaml(payload),
        }
    }

    /// The value as pretty JSON.
    fn format_as_json(&self, obj_map: Value) -> (r: LangExtractResult<String>)
        ensures
            match pretty_json(obj_map) {
                Ok(s) => r matches Ok(x) && x@ == s,
                Err(m) => r matches Err(LangExtractError::InvalidInput(x)) && x@
                    == "Variable substitution failed: "@ + "Failed to format JSON: "@ + m,
            },
    {
        match json_pretty(&obj_map) {
            Ok(s) => Ok(s),
            Err(e) => {
                let mut message = String::new();
                push_str(&mut message, "Failed to format JSON: ");
                push_str(&mut message, e.as_str());
                let err = TemplateError::SubstitutionError { message };
                proof {
                    assert(err.spec_message() =~= "Variable substitution failed: "@ + "Failed to format JSON: "@ + e@);
                }
                Err(err.into_error())
            },
        }
    }

    /// The value as YAML.
    fn format_as_yaml(&self, obj_map: Value) -> (r: LangExtractResult<String>)
        ensures
            match yaml_text(obj_map) {
                Ok(s) => r matches Ok(x) && x@ == s,
                Err(m) => r matches Err(LangExtractError::InvalidInput(x)) && x@
                    == "Variable substitution failed: "@ + "Failed to format YAML: "@ + m,
            },
    {
        match yaml_string(&obj_map) {
            Ok(s) => Ok(s),
            Err(e) => {
                let mut message = String::new();
                push_str(&mut message, "Failed to format YAML: ");
                push_str(&mut message, e.as_str());
                let err = TemplateError::SubstitutionError { message };
                proof {
                    assert(err.spec_message() =~= "Variable substitution failed: "@ + "Failed to format YAML: "@ + e@);
                }
                Err(err.into_error())
            },
        }
    }
}

} // verus!
