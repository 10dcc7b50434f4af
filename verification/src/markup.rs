//! How a reader takes in the HTML this library writes: the text it shows
//! once tags are left out and entities turned back into characters, and
//! whether its tags nest.

use vstd::prelude::*;
use vstd::utf8::*;
use crate::text::decimal;
use crate::visualization::{html_escaped, html_escaped_char, text_between};

verus! {

broadcast use vstd::seq::group_seq_axioms;

/// No character of `s` is `c`.
pub open spec fn lacks(s: Seq<char>, c: char) -> bool {
    forall|i: int| 0 <= i < s.len() ==> s[i] != c
}

/// The text shown for `h`: a tag, from `<` to the next `>`, shows nothing;
/// the entities that escaping writes show their characters; any other
/// character shows itself.
pub open spec fn visible_text(h: Seq<char>) -> Seq<char>
    decreases h.len(),
{
    if h.len() == 0 {
        seq![]
    } else if h[0] == '<' {
        inside_tag(h.drop_first())
    } else if h.len() >= 5 && h.subrange(0, 5) == "&amp;"@ {
        seq!['&'] + visible_text(h.skip(5))
    } else if h.len() >= 4 && h.subrange(0, 4) == "&lt;"@ {
        seq!['<'] + visible_text(h.skip(4))
    } else if h.len() >= 4 && h.subrange(0, 4) == "&gt;"@ {
        seq!['>'] + visible_text(h.skip(4))
    } else if h.len() >= 6 && h.subrange(0, 6) == "&quot;"@ {
        seq!['"'] + visible_text(h.skip(6))
    } else if h.len() >= 6 && h.subrange(0, 6) == "&#x27;"@ {
        seq!['\''] + visible_text(h.skip(6))
    } else {
        seq![h[0]] + visible_text(h.drop_first())
    }
}

/// The text shown for what follows the `<` of a tag.
pub open spec fn inside_tag(h: Seq<char>) -> Seq<char>
    decreases h.len(),
{
    if h.len() == 0 {
        seq![]
    } else if h[0] == '>' {
        visible_text(h.drop_first())
    } else {
        inside_tag(h.drop_first())
    }
}

/// Read with `depth` tags open, each tag of `h` either opens one more or,
/// when `/` follows its `<`, closes one that is open, and none is left
/// open at the end.
pub open spec fn tags_balanced(h: Seq<char>, depth: int) -> bool
    decreases h.len(),
{
    if h.len() == 0 {
        depth == 0
    } else if h[0] == '<' {
        if h.len() > 1 && h[1] == '/' {
            depth > 0 && balanced_in_tag(h.drop_first(), depth - 1)
        } else {
            balanced_in_tag(h.drop_first(), depth + 1)
        }
    } else {
        tags_balanced(h.drop_first(), depth)
    }
}

/// [`tags_balanced`] for what follows the `<` of a tag; a tag left
/// unfinished is not balanced.
pub open spec fn balanced_in_tag(h: Seq<char>, depth: int) -> bool
    decreases h.len(),
{
    if h.len() == 0 {
        false
    } else if h[0] == '>' {
        tags_balanced(h.drop_first(), depth)
    } else {
        balanced_in_tag(h.drop_first(), depth)
    }
}

/// A concatenation lacks a character when both parts do.
pub proof fn lemma_lacks_concat(x: Seq<char>, y: Seq<char>, c: char)
    requires
        lacks(x, c),
        lacks(y, c),
    ensures
        lacks(x + y, c),
{
    assert forall|i: int| 0 <= i < (x + y).len() implies (x + y)[i] != c by {
        if i >= x.len() {
            assert((x + y)[i] == y[i - x.len()]);
        }
    }
}

/// Characters other than `<` change neither the nesting nor where it stands.
pub proof fn lemma_balanced_plain(x: Seq<char>, r: Seq<char>, d: int)
    requires
        lacks(x, '<'),
    ensures
        tags_balanced(x + r, d) == tags_balanced(r, d),
    decreases x.len(),
{
    if x.len() > 0 {
        assert((x + r).drop_first() =~= x.drop_first() + r);
        lemma_balanced_plain(x.drop_first(), r, d);
    }
}

/// Inside a tag, characters other than `>` are passed over.
pub proof fn lemma_tag_skip(x: Seq<char>, r: Seq<char>, d: int)
    requires
        lacks(x, '>'),
    ensures
        inside_tag(x + r) == inside_tag(r),
        balanced_in_tag(x + r, d) == balanced_in_tag(r, d),
    decreases x.len(),
{
    if x.len() > 0 {
        assert((x + r).drop_first() =~= x.drop_first() + r);
        lemma_tag_skip(x.drop_first(), r, d);
    }
}

/// A tag shows nothing; an opening one adds a level of nesting, a closing
/// one takes one away.
pub proof fn lemma_tag(inner: Seq<char>, r: Seq<char>, d: int)
    requires
        lacks(inner, '>'),
    ensures
        visible_text(seq!['<'] + inner + seq!['>'] + r) == visible_text(r),
        tags_balanced(seq!['<'] + inner + seq!['>'] + r, d) == if inner.len() > 0 && inner[0] == '/' {
            d > 0 && tags_balanced(r, d - 1)
        } else {
            tags_balanced(r, d + 1)
        },
{
    let h = seq!['<'] + inner + seq!['>'] + r;
    assert(h.drop_first() =~= inner + (seq!['>'] + r));
    lemma_tag_skip(inner, seq!['>'] + r, d - 1);
    lemma_tag_skip(inner, seq!['>'] + r, d + 1);
    assert((seq!['>'] + r).drop_first() =~= r);
    if inner.len() > 0 {
        assert(h[1] == inner[0]);
    } else {
        assert(h[1] == '>');
    }
}

/// An escaped character shows as itself and leaves the nesting alone.
pub proof fn lemma_escaped_char(c: char, r: Seq<char>, d: int)
    ensures
        visible_text(html_escaped_char(c) + r) == seq![c] + visible_text(r),
        tags_balanced(html_escaped_char(c) + r, d) == tags_balanced(r, d),
        lacks(html_escaped_char(c), '<'),
        lacks(html_escaped_char(c), '>'),
{
    reveal_strlit("&amp;");
    reveal_strlit("&lt;");
    reveal_strlit("&gt;");
    reveal_strlit("&quot;");
    reveal_strlit("&#x27;");
    let e = html_escaped_char(c);
    let h = e + r;
    assert(h.skip(e.len() as int) =~= r);
    if c == '&' {
        assert(h.subrange(0, 5) =~= "&amp;"@);
    } else if c == '<' {
        assert(h.subrange(0, 5) != "&amp;"@ || h.len() < 5) by {
            if h.len() >= 5 {
                assert(h.subrange(0, 5)[1] != "&amp;"@[1]);
            }
        }
        assert(h.subrange(0, 4) =~= "&lt;"@);
    } else if c == '>' {
        assert(h.subrange(0, 5) != "&amp;"@ || h.len() < 5) by {
            if h.len() >= 5 {
                assert(h.subrange(0, 5)[1] != "&amp;"@[1]);
            }
        }
        assert(h.subrange(0, 4) != "&lt;"@) by {
            assert(h.subrange(0, 4)[1] != "&lt;"@[1]);
        }
        assert(h.subrange(0, 4) =~= "&gt;"@);
    } else if c == '"' {
        assert(h.subrange(0, 5) != "&amp;"@) by {
            assert(h.subrange(0, 5)[1] != "&amp;"@[1]);
        }
        assert(h.subrange(0, 4) != "&lt;"@) by {
            assert(h.subrange(0, 4)[1] != "&lt;"@[1]);
        }
        assert(h.subrange(0, 4) != "&gt;"@) by {
            assert(h.subrange(0, 4)[1] != "&gt;"@[1]);
        }
        assert(h.subrange(0, 6) =~= "&quot;"@);
    } else if c == '\'' {
        assert(h.subrange(0, 5) != "&amp;"@) by {
            assert(h.subrange(0, 5)[1] != "&amp;"@[1]);
        }
        assert(h.subrange(0, 4) != "&lt;"@) by {
            assert(h.subrange(0, 4)[1] != "&lt;"@[1]);
        }
        assert(h.subrange(0, 4) != "&gt;"@) by {
            assert(h.subrange(0, 4)[1] != "&gt;"@[1]);
        }
        assert(h.subrange(0, 6) != "&quot;"@) by {
            assert(h.subrange(0, 6)[1] != "&quot;"@[1]);
        }
        assert(h.subrange(0, 6) =~= "&#x27;"@);
    } else {
        assert(h[0] == c);
        assert(h.len() >= 5 ==> h.subrange(0, 5)[0] != "&amp;"@[0]);
        assert(h.len() >= 4 ==> h.subrange(0, 4)[0] != "&lt;"@[0]);
        assert(h.len() >= 4 ==> h.subrange(0, 4)[0] != "&gt;"@[0]);
        assert(h.len() >= 6 ==> h.subrange(0, 6)[0] != "&quot;"@[0]);
        assert(h.len() >= 6 ==> h.subrange(0, 6)[0] != "&#x27;"@[0]);
        assert(h.drop_first() =~= r);
    }
    lemma_balanced_plain(e, r, d);
}

/// Escaped text shows as itself, holds no `<` or `>`, and leaves the
/// nesting alone.
pub proof fn lemma_escaped(t: Seq<char>, r: Seq<char>, d: int)
    ensures
        visible_text(html_escaped(t) + r) == t + visible_text(r),
        tags_balanced(html_escaped(t) + r, d) == tags_balanced(r, d),
        lacks(html_escaped(t), '<'),
        lacks(html_escaped(t), '>'),
    decreases t.len(),
{
    if t.len() > 0 {
        let c = t.last();
        let head = html_escaped(t.drop_last());
        lemma_escaped_char(c, r, d);
        lemma_escaped(t.drop_last(), html_escaped_char(c) + r, d);
        assert(html_escaped(t) + r =~= head + (html_escaped_char(c) + r));
        assert(t =~= t.drop_last() + seq![c]);
        assert(t.drop_last() + (seq![c] + visible_text(r)) =~= t + visible_text(r));
    } else {
        assert(html_escaped(t) + r =~= r);
        assert(t + visible_text(r) =~= visible_text(r));
    }
}

/// A decimal number holds no `>`.
pub proof fn lemma_decimal_plain(n: nat)
    ensures
        lacks(decimal(n), '>'),
        lacks(decimal(n), '<'),
    decreases n,
{
    if n >= 10 {
        lemma_decimal_plain(n / 10);
    }
}

/// At character boundaries, the text between two positions is the text up
/// to a middle one followed by the text from it.
pub proof fn lemma_text_between_split(b: Seq<u8>, a: int, m: int, c: int)
    requires
        valid_utf8(b),
        0 <= a <= m <= c <= b.len(),
        is_char_boundary(b, a),
        is_char_boundary(b, m),
        is_char_boundary(b, c),
    ensures
        text_between(b, a, c) == text_between(b, a, m) + text_between(b, m, c),
{
    let tail = b.subrange(a, b.len() as int);
    valid_utf8_split(b, a);
    crate::text::lemma_boundary_iff(tail, c - a);
    crate::text::lemma_boundary_iff(b, c);
    if c < b.len() {
        assert(tail[c - a] == b[c]);
    }
    valid_utf8_split(tail, c - a);
    let x = b.subrange(a, c);
    assert(tail.subrange(0, c - a) =~= x);
    crate::text::lemma_boundary_iff(x, m - a);
    crate::text::lemma_boundary_iff(b, m);
    if m < c {
        assert(x[m - a] == b[m]);
    }
    decode_utf8_split(x, m - a);
    assert(x.subrange(0, m - a) =~= b.subrange(a, m));
    assert(x.subrange(m - a, x.len() as int) =~= b.subrange(m, c));
}

} // verus!
