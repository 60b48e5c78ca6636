//! Text made safe to stand in an HTML page.
use vstd::prelude::*;

use crate::text;

verus! {

/// What stands for one character in an HTML page.
pub open spec fn escaped_char(c: char) -> Seq<char> {
    if c == '&' {
        "&amp;"@
    } else if c == '<' {
        "&lt;"@
    } else if c == '>' {
        "&gt;"@
    } else if c == '"' {
        "&quot;"@
    } else if c == '\'' {
        "&#39;"@
    } else {
        seq![c]
    }
}

/// What stands for a text in an HTML page: each of its characters escaped, in order.
pub open spec fn escaped(s: Seq<char>) -> Seq<char>
    decreases s.len(),
{
    if s.len() == 0 {
        Seq::empty()
    } else {
        escaped(s.drop_last()) + escaped_char(s.last())
    }
}

/// The text with `&`, `<`, `>`, `"` and `'` replaced by character references.
pub fn escape_html(input: &str) -> (out: String)
    ensures
        out@ == escaped(input@),
{
    let mut out = String::new();
    for ch in iter: input.chars()
        invariant
            iter.seq() == input@,
            out@ == escaped(input@.take(iter.index() as int)),
    {
        let ghost before = out@;
        match ch {
            '&' => out.append("&amp;"),
            '<' => out.append("&lt;"),
            '>' => out.append("&gt;"),
            '"' => out.append("&quot;"),
            '\'' => out.append("&#39;"),
            _ => out.push(ch),
        }
        proof {
            let i = iter.index() as int;
            assert(input@.take(i + 1).drop_last() =~= input@.take(i));
            assert(out@ =~= before + escaped_char(ch));
        }
    }
    proof {
        assert(input@.take(input@.len() as int) =~= input@);
    }
    out
}

// ---------------------------------------------------------------------------
// Laws
// ---------------------------------------------------------------------------
/// The five character references, spelled out.
proof fn lemma_references()
    ensures
        "&amp;"@ == seq!['&', 'a', 'm', 'p', ';'],
        "&lt;"@ == seq!['&', 'l', 't', ';'],
        "&gt;"@ == seq!['&', 'g', 't', ';'],
        "&quot;"@ == seq!['&', 'q', 'u', 'o', 't', ';'],
        "&#39;"@ == seq!['&', '#', '3', '9', ';'],
{
    reveal_strlit("&amp;");
    reveal_strlit("&lt;");
    reveal_strlit("&gt;");
    reveal_strlit("&quot;");
    reveal_strlit("&#39;");
    assert("&amp;"@ =~= seq!['&', 'a', 'm', 'p', ';']);
    assert("&lt;"@ =~= seq!['&', 'l', 't', ';']);
    assert("&gt;"@ =~= seq!['&', 'g', 't', ';']);
    assert("&quot;"@ =~= seq!['&', 'q', 'u', 'o', 't', ';']);
    assert("&#39;"@ =~= seq!['&', '#', '3', '9', ';']);
}

/// One of the five character references.
pub open spec fn is_reference(s: Seq<char>) -> bool {
    s == "&amp;"@ || s == "&lt;"@ || s == "&gt;"@ || s == "&quot;"@ || s == "&#39;"@
}

/// Escaped text holds neither angle brackets nor quotes, so it can neither open a tag nor
/// end an attribute's value.
pub proof fn law_escaped_has_no_markup(s: Seq<char>)
    ensures
        forall|i: int|
            0 <= i < escaped(s).len() ==> {
                let c = #[trigger] escaped(s)[i];
                c != '<' && c != '>' && c != '"' && c != '\''
            },
    decreases s.len(),
{
    lemma_references();
    if s.len() > 0 {
        law_escaped_has_no_markup(s.drop_last());
        let front = escaped(s.drop_last());
        let back = escaped_char(s.last());
        assert forall|i: int| 0 <= i < escaped(s).len() implies {
            let c = #[trigger] escaped(s)[i];
            c != '<' && c != '>' && c != '"' && c != '\''
        } by {
            if i < front.len() {
                assert(escaped(s)[i] == front[i]);
            } else {
                assert(escaped(s)[i] == back[i - front.len()]);
            }
        }
    }
}

/// Every ampersand in escaped text opens one of the five character references.
pub proof fn law_escaped_ampersands_open_references(s: Seq<char>, i: int)
    requires
        0 <= i < escaped(s).len(),
        escaped(s)[i] == '&',
    ensures
        exists|r: Seq<char>| #[trigger] is_reference(r) && text::occurs_at(escaped(s), r, i),
    decreases s.len(),
{
    lemma_references();
    let front = escaped(s.drop_last());
    let back = escaped_char(s.last());
    let whole = escaped(s);
    if i < front.len() {
        law_escaped_ampersands_open_references(s.drop_last(), i);
        let r = choose|r: Seq<char>| #[trigger] is_reference(r) && text::occurs_at(front, r, i);
        assert(whole.subrange(i, i + r.len()) =~= front.subrange(i, i + r.len()));
        assert(is_reference(r) && text::occurs_at(whole, r, i));
    } else {
        assert(whole[i] == back[i - front.len()]);
        assert(i == front.len());
        assert(whole.subrange(i, i + back.len()) =~= back);
        assert(is_reference(back) && text::occurs_at(whole, back, i));
    }
}

/// Escaping a text piece by piece is escaping it whole.
pub proof fn law_escaped_concat(a: Seq<char>, b: Seq<char>)
    ensures
        escaped(a + b) == escaped(a) + escaped(b),
    decreases b.len(),
{
    if b.len() == 0 {
        assert(a + b =~= a);
        assert(escaped(a) + escaped(b) =~= escaped(a));
    } else {
        law_escaped_concat(a, b.drop_last());
        assert((a + b).drop_last() =~= a + b.drop_last());
        assert(escaped(a + b) =~= escaped(a) + escaped(b));
    }
}

/// Text without any of the five characters is left as it is.
pub proof fn law_escaped_plain(s: Seq<char>)
    requires
        forall|i: int|
            0 <= i < s.len() ==> {
                let c = #[trigger] s[i];
                c != '&' && c != '<' && c != '>' && c != '"' && c != '\''
            },
    ensures
        escaped(s) == s,
    decreases s.len(),
{
    if s.len() > 0 {
        law_escaped_plain(s.drop_last());
        assert(escaped(s) =~= s);
    }
}

/// The escaped text begins with what stands for the first character.
proof fn lemma_escaped_first(s: Seq<char>)
    requires
        s.len() > 0,
    ensures
        escaped(s) == escaped_char(s[0]) + escaped(s.skip(1)),
{
    let first = seq![s[0]];
    law_escaped_concat(first, s.skip(1));
    assert(first + s.skip(1) =~= s);
    assert(first.drop_last() =~= Seq::<char>::empty());
    reveal_with_fuel(escaped, 2);
    assert(escaped(first) =~= escaped_char(s[0]));
}

/// Escaping loses nothing: texts that look alike when escaped are the same text.
pub proof fn law_escaped_injective(a: Seq<char>, b: Seq<char>)
    requires
        escaped(a) == escaped(b),
    ensures
        a == b,
    decreases a.len(),
{
    lemma_references();
    if a.len() == 0 {
        if b.len() > 0 {
            lemma_escaped_first(b);
            assert(escaped(b).len() > 0);
        }
        assert(a =~= b);
    } else if b.len() == 0 {
        lemma_escaped_first(a);
        assert(escaped(a).len() > 0);
    } else {
        lemma_escaped_first(a);
        lemma_escaped_first(b);
        let x = escaped_char(a[0]);
        let y = escaped_char(b[0]);
        let u = escaped(a.skip(1));
        let v = escaped(b.skip(1));
        assert((x + u)[0] == x[0]);
        assert((y + v)[0] == y[0]);
        if x.len() > 1 {
            assert((x + u)[1] == x[1]);
        }
        if y.len() > 1 {
            assert((y + v)[1] == y[1]);
        }
        assert(a[0] == b[0]);
        assert(u =~= (x + u).skip(x.len() as int));
        assert(v =~= (y + v).skip(y.len() as int));
        law_escaped_injective(a.skip(1), b.skip(1));
        assert(a =~= seq![a[0]] + a.skip(1));
        assert(b =~= seq![b[0]] + b.skip(1));
    }
}

/// The text starts with `r`.
pub open spec fn starts_with(s: Seq<char>, r: Seq<char>) -> bool {
    r.len() <= s.len() && s.take(r.len() as int) == r
}

/// What a browser shows of text in a page: the character that each of the references stands for,
/// and other characters as they are.
pub open spec fn displayed(s: Seq<char>) -> Seq<char>
    decreases s.len(),
{
    if s.len() == 0 {
        Seq::empty()
    } else if starts_with(s, seq!['&', 'a', 'm', 'p', ';']) {
        seq!['&'] + displayed(s.skip(5))
    } else if starts_with(s, seq!['&', 'l', 't', ';']) {
        seq!['<'] + displayed(s.skip(4))
    } else if starts_with(s, seq!['&', 'g', 't', ';']) {
        seq!['>'] + displayed(s.skip(4))
    } else if starts_with(s, seq!['&', 'q', 'u', 'o', 't', ';']) {
        seq!['"'] + displayed(s.skip(6))
    } else if starts_with(s, seq!['&', '#', '3', '9', ';']) {
        seq!['\''] + displayed(s.skip(5))
    } else {
        seq![s[0]] + displayed(s.skip(1))
    }
}

/// A text that starts with a reference starts with its characters.
proof fn lemma_starts_with(s: Seq<char>, r: Seq<char>)
    ensures
        starts_with(s, r) ==> forall|i: int| 0 <= i < r.len() ==> s[i] == #[trigger] r[i],
{
    if starts_with(s, r) {
        assert forall|i: int| 0 <= i < r.len() implies s[i] == #[trigger] r[i] by {
            assert(s.take(r.len() as int)[i] == s[i]);
        }
    }
}

proof fn lemma_displayed_char(c: char, t: Seq<char>)
    ensures
        displayed(escaped_char(c) + t) == seq![c] + displayed(t),
{
    lemma_references();
    let amp = seq!['&', 'a', 'm', 'p', ';'];
    let lt = seq!['&', 'l', 't', ';'];
    let gt = seq!['&', 'g', 't', ';'];
    let quot = seq!['&', 'q', 'u', 'o', 't', ';'];
    let apos = seq!['&', '#', '3', '9', ';'];
    let e = escaped_char(c);
    let s = e + t;
    assert(s.take(e.len() as int) =~= e);
    assert(s.skip(e.len() as int) =~= t);
    assert(s[0] == e[0]);
    if e.len() > 1 {
        assert(s[1] == e[1]);
    }
    lemma_starts_with(s, amp);
    lemma_starts_with(s, lt);
    lemma_starts_with(s, gt);
    lemma_starts_with(s, quot);
    lemma_starts_with(s, apos);
    assert(amp[0] == '&' && amp[1] == 'a');
    assert(lt[0] == '&' && lt[1] == 'l');
    assert(gt[0] == '&' && gt[1] == 'g');
    assert(quot[0] == '&' && quot[1] == 'q');
    assert(apos[0] == '&' && apos[1] == '#');
}

/// Escaped text is displayed as the text that it was made of.
pub proof fn law_escaped_is_displayed(s: Seq<char>)
    ensures
        displayed(escaped(s)) == s,
    decreases s.len(),
{
    if s.len() == 0 {
        assert(s =~= Seq::empty());
    } else {
        lemma_escaped_first(s);
        lemma_displayed_char(s[0], escaped(s.skip(1)));
        law_escaped_is_displayed(s.skip(1));
        assert(seq![s[0]] + s.skip(1) =~= s);
    }
}

} // verus!
