//! Byte-level views of UTF-8 text and the string building blocks the rest of
//! the crate is written with.

use vstd::prelude::*;
use vstd::string::*;
use vstd::utf8::*;
use vstd::std_specs::iter::IteratorSpec;

verus! {

broadcast use vstd::seq::group_seq_axioms;

/// The UTF-8 bytes of a string slice.
pub open spec fn bytes(s: &str) -> Seq<u8> {
    s.spec_bytes()
}

/// The UTF-8 bytes of a string.
pub open spec fn string_bytes(s: String) -> Seq<u8> {
    encode_utf8(s@)
}

/// The bytes of a string slice form a valid UTF-8 encoding.
pub proof fn lemma_str_valid(s: &str)
    ensures
        valid_utf8(bytes(s)),
{
    encode_utf8_valid_utf8(s@);
}

/// In valid UTF-8 an index inside the sequence starts a character exactly
/// when its byte is not a continuation byte.
pub proof fn lemma_boundary_iff(b: Seq<u8>, i: int)
    requires
        valid_utf8(b),
        0 <= i <= b.len(),
    ensures
        is_char_boundary(b, i) <==> (i == b.len() || !is_continuation_byte(b[i])),
{
    if i == b.len() {
        is_char_boundary_start_end_of_seq(b);
    } else {
        is_char_boundary_iff_not_is_continuation_byte(b, i);
    }
}

/// A position right after an ASCII byte is a character boundary.
pub proof fn lemma_boundary_after_ascii(b: Seq<u8>, i: int)
    requires
        valid_utf8(b),
        0 < i <= b.len(),
        b[i - 1] < 0x80,
    ensures
        is_char_boundary(b, i),
{
    lemma_boundary_iff(b, i - 1);
    assert(is_char_boundary(b, i - 1));
    let suffix = b.subrange(i - 1, b.len() as int);
    valid_utf8_split(b, i - 1);
    assert(suffix[0] == b[i - 1]);
    reveal_with_fuel(is_char_boundary, 2);
    assert(is_char_boundary(suffix, 1));
    if i < b.len() {
        lemma_boundary_iff(suffix, 1);
        lemma_boundary_iff(b, i);
        assert(suffix[1] == b[i]);
    } else {
        is_char_boundary_start_end_of_seq(b);
    }
}

/// Stepping over one whole character keeps a position on a character
/// boundary; the width of the character is read from its leading byte.
pub proof fn lemma_boundary_step(b: Seq<u8>, i: int, w: int)
    requires
        valid_utf8(b),
        0 <= i < b.len(),
        is_char_boundary(b, i),
        w == (if b[i] < 0x80 { 1int } else if b[i] >= 0xF0 { 4int } else if b[i] >= 0xE0 { 3int } else { 2int }),
    ensures
        i + w <= b.len(),
        is_char_boundary(b, i + w),
{
    let suffix = b.subrange(i, b.len() as int);
    valid_utf8_split(b, i);
    assert(suffix[0] == b[i]);
    assert(valid_first_scalar(suffix));
    assert(length_of_first_scalar(suffix) == w) by {
        assert(suffix[0] == b[i]);
    }
    reveal_with_fuel(is_char_boundary, 2);
    assert(pop_first_scalar(suffix).len() == suffix.len() - w);
    assert(is_char_boundary(suffix, w));
    if i + w < b.len() {
        lemma_boundary_iff(suffix, w);
        lemma_boundary_iff(b, i + w);
        assert(suffix[w] == b[i + w]);
    } else {
        is_char_boundary_start_end_of_seq(b);
    }
}

/// The length of a string slice in bytes.
pub fn byte_len(s: &str) -> (n: usize)
    ensures
        n == bytes(s).len(),
{
    s.as_bytes().len()
}

/// The part of `s` between two byte offsets, both on character boundaries.
pub fn substr<'a>(s: &'a str, start: usize, end: usize) -> (r: &'a str)
    requires
        start <= end <= bytes(s).len(),
        is_char_boundary(bytes(s), start as int),
        is_char_boundary(bytes(s), end as int),
    ensures
        bytes(r) == bytes(s).subrange(start as int, end as int),
{
    proof {
        lemma_str_valid(s);
    }
    let (_, rest) = s.split_at(start);
    proof {
        lemma_str_valid(rest);
        lemma_boundary_iff(bytes(rest), (end - start) as int);
        lemma_boundary_iff(bytes(s), end as int);
        if end < bytes(s).len() {
            assert(bytes(rest)[end - start] == bytes(s)[end as int]);
        }
    }
    let (mid, _) = rest.split_at(end - start);
    proof {
        assert(bytes(mid) =~= bytes(s).subrange(start as int, end as int));
    }
    mid
}

/// The characters a string slice holds are the decoding of its bytes.
pub proof fn lemma_chars_of(s: &str)
    ensures
        s@ == decode_utf8(bytes(s)),
{
    encode_utf8_decode_utf8(s@);
}

/// Appends one character to a string.
#[verifier::external_body]
pub(crate) fn push_char(s: &mut String, c: char)
    ensures
        final(s)@ == old(s)@.push(c),
{
    s.push(c);
}

/// The character for a decimal digit.
pub open spec fn digit_char(d: nat) -> char {
    if d == 0 { '0' } else if d == 1 { '1' } else if d == 2 { '2' } else if d == 3 { '3' }
    else if d == 4 { '4' } else if d == 5 { '5' } else if d == 6 { '6' } else if d == 7 { '7' }
    else if d == 8 { '8' } else { '9' }
}

/// The decimal rendering of a natural number, without sign or leading zeros.
pub open spec fn decimal(n: nat) -> Seq<char>
    decreases n,
{
    if n < 10 {
        seq![digit_char(n)]
    } else {
        decimal(n / 10).push(digit_char(n % 10))
    }
}

fn digit_to_char(d: usize) -> (c: char)
    requires
        d < 10,
    ensures
        c == digit_char(d as nat),
{
    if d == 0 { '0' } else if d == 1 { '1' } else if d == 2 { '2' } else if d == 3 { '3' }
    else if d == 4 { '4' } else if d == 5 { '5' } else if d == 6 { '6' } else if d == 7 { '7' }
    else if d == 8 { '8' } else { '9' }
}

/// Appends the decimal rendering of `n`.
pub fn push_decimal(s: &mut String, n: usize)
    ensures
        final(s)@ == old(s)@ + decimal(n as nat),
    decreases n,
{
    if n >= 10 {
        push_decimal(s, n / 10);
    }
    push_char(s, digit_to_char(n % 10));
    proof {
        if n < 10 {
            assert(decimal(n as nat) =~= seq![digit_char(n as nat)]);
        }
    }
}

/// The decimal rendering of `n` as a new string.
pub fn decimal_string(n: usize) -> (s: String)
    ensures
        s@ == decimal(n as nat),
{
    let mut s = String::new();
    push_decimal(&mut s, n);
    proof {
        assert(s@ =~= decimal(n as nat));
    }
    s
}

/// Appends a string slice.
pub fn push_str(s: &mut String, t: &str)
    ensures
        final(s)@ == old(s)@ + t@,
{
    s.append(t);
}

/// The characters of a string slice, in order.
pub fn chars_of(s: &str) -> (v: Vec<char>)
    ensures
        v@ == s@,
{
    broadcast use vstd::string::group_string_axioms, vstd::string::next_postcondition;

    let mut v: Vec<char> = Vec::new();
    let mut it = s.chars();
    let ghost all = s@;
    loop
        invariant
            all == s@,
            it.obeys_prophetic_iter_laws(),
            v@ + it.remaining() == all,
            it.decrease() is Some,
        decreases it.decrease()->0,
    {
        let ghost before = it.remaining();
        match it.next() {
            Some(c) => {
                v.push(c);
                proof {
                    assert(before == seq![c] + it.remaining());
                    assert(v@ + it.remaining() =~= all);
                }
            },
            None => {
                proof {
                    assert(it.remaining().len() == 0);
                    assert(v@ =~= all);
                }
                return v;
            },
        }
    }
}

/// A character with the Unicode White_Space property: tab to carriage
/// return, space, U+0085, U+00A0, U+1680, U+2000 to U+200A, U+2028, U+2029,
/// U+202F, U+205F and U+3000.
pub open spec fn is_white_space(c: char) -> bool {
    let u = c as u32;
    (9 <= u <= 13) || u == 32 || u == 0x85 || u == 0xA0 || u == 0x1680 || (0x2000 <= u <= 0x200A) || u == 0x2028
        || u == 0x2029 || u == 0x202F || u == 0x205F || u == 0x3000
}

/// Whether `c` has the Unicode White_Space property.
pub fn white_space(c: char) -> (r: bool)
    ensures
        r == is_white_space(c),
{
    let u = c as u32;
    (9 <= u && u <= 13) || u == 32 || u == 0x85 || u == 0xA0 || u == 0x1680 || (0x2000 <= u && u <= 0x200A)
        || u == 0x2028 || u == 0x2029 || u == 0x202F || u == 0x205F || u == 0x3000
}

/// The first position at or after `i` that holds no whitespace.
pub open spec fn first_non_ws(s: Seq<char>, i: int) -> int
    decreases s.len() - i,
{
    if 0 <= i < s.len() && is_white_space(s[i]) { first_non_ws(s, i + 1) } else { i }
}

/// The end of the text up to `j` without its trailing whitespace.
pub open spec fn last_non_ws_end(s: Seq<char>, j: int) -> int
    decreases j,
{
    if 0 < j <= s.len() && is_white_space(s[j - 1]) { last_non_ws_end(s, j - 1) } else { j }
}

/// The text without leading and trailing whitespace.
pub open spec fn trim_ws(s: Seq<char>) -> Seq<char> {
    let a = first_non_ws(s, 0);
    let z = last_non_ws_end(s, s.len() as int);
    if a >= z { seq![] } else { s.subrange(a, z) }
}

/// The text with every run of whitespace replaced by one space.
pub open spec fn squeeze_ws(s: Seq<char>) -> Seq<char>
    decreases s.len(),
{
    if s.len() == 0 {
        s
    } else {
        let r = squeeze_ws(s.drop_last());
        if is_white_space(s.last()) {
            if s.len() >= 2 && is_white_space(s[s.len() - 2]) { r } else { r.push(' ') }
        } else {
            r.push(s.last())
        }
    }
}

proof fn lemma_first_non_ws(s: Seq<char>, i: int)
    requires
        0 <= i <= s.len(),
    ensures
        i <= first_non_ws(s, i) <= s.len(),
        first_non_ws(s, i) < s.len() ==> !is_white_space(s[first_non_ws(s, i)]),
    decreases s.len() - i,
{
    if i < s.len() && is_white_space(s[i]) {
        lemma_first_non_ws(s, i + 1);
    }
}

proof fn lemma_last_non_ws_end(s: Seq<char>, j: int)
    requires
        0 <= j <= s.len(),
    ensures
        0 <= last_non_ws_end(s, j) <= j,
        last_non_ws_end(s, j) > 0 ==> !is_white_space(s[last_non_ws_end(s, j) - 1]),
        forall|k: int| last_non_ws_end(s, j) <= k < j ==> is_white_space(#[trigger] s[k]),
    decreases j,
{
    if 0 < j && is_white_space(s[j - 1]) {
        lemma_last_non_ws_end(s, j - 1);
    }
}

/// The text with leading and trailing whitespace removed, as std's
/// `str::trim` does.
pub fn trim_text(text: &str) -> (r: String)
    ensures
        r@ == trim_ws(text@),
{
    let chars = chars_of(text);
    let n = chars.len();
    let ghost s = chars@;
    let mut i: usize = 0;
    while i < n && white_space(chars[i])
        invariant
            s == chars@,
            s == text@,
            n == s.len(),
            0 <= i <= n,
            first_non_ws(s, 0) == first_non_ws(s, i as int),
        decreases n - i,
    {
        i = i + 1;
    }
    let mut out = String::new();
    if i >= n {
        proof {
            lemma_last_non_ws_end(s, n as int);
            assert(trim_ws(s) =~= seq![]);
        }
        return out;
    }
    let mut j: usize = n;
    while j > 0 && white_space(chars[j - 1])
        invariant
            s == chars@,
            n == s.len(),
            0 <= j <= n,
            i < n,
            !is_white_space(s[i as int]),
            i < j,
            last_non_ws_end(s, n as int) == last_non_ws_end(s, j as int),
        decreases j,
    {
        j = j - 1;
    }
    proof {
        assert(trim_ws(s) == s.subrange(i as int, j as int));
    }
    let mut k: usize = i;
    while k < j
        invariant
            s == chars@,
            n == s.len(),
            i <= k <= j <= n,
            out@ == s.subrange(i as int, k as int),
        decreases j - k,
    {
        push_char(&mut out, chars[k]);
        proof {
            assert(out@ =~= s.subrange(i as int, k + 1));
        }
        k = k + 1;
    }
    out
}

/// The text with leading and trailing whitespace removed and every inner
/// run of whitespace replaced by one space.
pub fn squeeze_trim(text: &str) -> (r: String)
    ensures
        r@ == squeeze_ws(trim_ws(text@)),
{
    let chars = chars_of(text);
    let n = chars.len();
    let ghost s = chars@;
    let mut i: usize = 0;
    while i < n && white_space(chars[i])
        invariant
            s == chars@,
            s == text@,
            n == s.len(),
            0 <= i <= n,
            first_non_ws(s, 0) == first_non_ws(s, i as int),
        decreases n - i,
    {
        i = i + 1;
    }
    let mut out = String::new();
    if i >= n {
        proof {
            lemma_last_non_ws_end(s, n as int);
            assert(trim_ws(s) =~= seq![]);
            assert(squeeze_ws(seq![]) =~= seq![]);
        }
        return out;
    }
    let mut j: usize = n;
    while j > 0 && white_space(chars[j - 1])
        invariant
            s == chars@,
            n == s.len(),
            0 <= j <= n,
            i < n,
            !is_white_space(s[i as int]),
            i < j,
            last_non_ws_end(s, n as int) == last_non_ws_end(s, j as int),
        decreases j,
    {
        j = j - 1;
    }
    let ghost t = s.subrange(i as int, j as int);
    proof {
        assert(trim_ws(s) == t);
    }
    let mut k: usize = i;
    while k < j
        invariant
            s == chars@,
            n == s.len(),
            i <= k <= j <= n,
            t == s.subrange(i as int, j as int),
            out@ == squeeze_ws(s.subrange(i as int, k as int)),
        decreases j - k,
    {
        let c = chars[k];
        let ghost before = s.subrange(i as int, k as int);
        let ghost after = s.subrange(i as int, k + 1);
        proof {
            assert(after.drop_last() =~= before);
            assert(after.last() == c);
            if k > i {
                assert(after[after.len() - 2] == s[k - 1]);
            }
        }
        if white_space(c) {
            if !(k > i && white_space(chars[k - 1])) {
                push_char(&mut out, ' ');
            }
        } else {
            push_char(&mut out, c);
        }
        k = k + 1;
    }
    proof {
        assert(s.subrange(i as int, j as int) == t);
    }
    out
}

} // verus!
