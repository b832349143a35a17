//! Text that stands in HTML.

use vstd::prelude::*;

verus! {

/// What stands for a character in HTML text.
pub open spec fn escaped_char(c: char) -> Seq<char> {
    match c {
        '>' => seq!['&', 'g', 't', ';'],
        '<' => seq!['&', 'l', 't', ';'],
        '&' => seq!['&', 'a', 'm', 'p', ';'],
        '\'' => seq!['&', '#', '3', '9', ';'],
        '"' => seq!['&', 'q', 'u', 'o', 't', ';'],
        _ => seq![c],
    }
}

/// A text with every character replaced by what stands for it.
pub open spec fn escaped(s: Seq<char>) -> Seq<char>
    decreases s.len(),
{
    if s.len() == 0 {
        seq![]
    } else {
        escaped(s.drop_last()) + escaped_char(s.last())
    }
}

/// Text whose HTML form is wanted.
pub struct Escape<'a>(pub &'a str);

impl<'a> Escape<'a> {
    /// Appends the HTML form to `out`.
    pub fn write_to(&self, out: &mut String)
        ensures
            final(out)@ == old(out)@ + escaped(self.0@),
    {
        let ghost start = out@;
        for c in it: self.0.chars()
            invariant
                it.seq() == self.0@,
                out@ == start + escaped(self.0@.take(it.index())),
        {
            proof {
                let seen = self.0@.take(it.index() + 1);
                assert(seen.drop_last() == self.0@.take(it.index()));
                reveal_strlit("&gt;");
                reveal_strlit("&lt;");
                reveal_strlit("&amp;");
                reveal_strlit("&#39;");
                reveal_strlit("&quot;");
                assert("&gt;"@ == seq!['&', 'g', 't', ';']);
                assert("&lt;"@ == seq!['&', 'l', 't', ';']);
                assert("&amp;"@ == seq!['&', 'a', 'm', 'p', ';']);
                assert("&#39;"@ == seq!['&', '#', '3', '9', ';']);
                assert("&quot;"@ == seq!['&', 'q', 'u', 'o', 't', ';']);
            }
            match c {
                '>' => out.append("&gt;"),
                '<' => out.append("&lt;"),
                '&' => out.append("&amp;"),
                '\'' => out.append("&#39;"),
                '"' => out.append("&quot;"),
                _ => out.push(c),
            }
        }
        assert(self.0@.take(self.0@.len() as int) == self.0@);
    }

    /// The HTML form.
    pub fn to_string(&self) -> (html: String)
        ensures
            html@ == escaped(self.0@),
    {
        let mut html = String::new();
        self.write_to(&mut html);
        html
    }
}

/// Whether a text begins with another.
pub open spec fn begins_with(s: Seq<char>, start: Seq<char>) -> bool {
    start.len() <= s.len() && forall|i: int| 0 <= i < start.len() ==> s[i] == start[i]
}

/// What a browser shows for HTML text: the five references that [`Escape`]
/// writes are read back, and every other character stands for itself.
pub open spec fn unescaped(html: Seq<char>) -> Seq<char>
    decreases html.len(),
{
    if html.len() == 0 {
        seq![]
    } else if begins_with(html, seq!['&', 'g', 't', ';']) {
        seq!['>'] + unescaped(html.skip(4))
    } else if begins_with(html, seq!['&', 'l', 't', ';']) {
        seq!['<'] + unescaped(html.skip(4))
    } else if begins_with(html, seq!['&', 'a', 'm', 'p', ';']) {
        seq!['&'] + unescaped(html.skip(5))
    } else if begins_with(html, seq!['&', '#', '3', '9', ';']) {
        seq!['\''] + unescaped(html.skip(5))
    } else if begins_with(html, seq!['&', 'q', 'u', 'o', 't', ';']) {
        seq!['"'] + unescaped(html.skip(6))
    } else {
        seq![html[0]] + unescaped(html.skip(1))
    }
}

/// Escaping two texts in a row gives their two HTML forms in a row.
pub proof fn law_escape_by_parts(a: Seq<char>, b: Seq<char>)
    ensures
        escaped(a + b) == escaped(a) + escaped(b),
    decreases b.len(),
{
    if b.len() == 0 {
        assert(a + b == a);
        assert(escaped(a) + escaped(b) == escaped(a));
    } else {
        law_escape_by_parts(a, b.drop_last());
        assert((a + b).drop_last() == a + b.drop_last());
        assert(escaped(a + b) == escaped(a) + escaped(b));
    }
}

/// Whether a character can neither open or close a tag nor end an attribute.
pub open spec fn inert(c: char) -> bool {
    c != '<' && c != '>' && c != '\'' && c != '"'
}

/// An HTML form holds no character that could open a tag, close one or end an
/// attribute.
pub proof fn law_escaped_text_is_inert(s: Seq<char>)
    ensures
        forall|i: int| 0 <= i < escaped(s).len() ==> inert(#[trigger] escaped(s)[i]),
    decreases s.len(),
{
    if s.len() > 0 {
        let before = escaped(s.drop_last());
        let last = escaped_char(s.last());
        law_escaped_text_is_inert(s.drop_last());
        assert forall|i: int| 0 <= i < escaped(s).len() implies inert(
            #[trigger] escaped(s)[i],
        ) by {
            if i < before.len() {
                assert(inert(before[i]));
            } else {
                assert(inert(last[i - before.len()]));
            }
        }
    }
}

/// Whether a text holds none of the five characters that are escaped.
pub open spec fn harmless(s: Seq<char>) -> bool {
    forall|i: int|
        0 <= i < s.len() ==> !(#[trigger] s[i] == '<' || s[i] == '>' || s[i] == '&' || s[i] == '\''
            || s[i] == '"')
}

proof fn lemma_escaping_lengthens(s: Seq<char>)
    ensures
        escaped(s).len() >= s.len(),
        escaped(s).len() == s.len() ==> harmless(s),
    decreases s.len(),
{
    if s.len() > 0 {
        let before = s.drop_last();
        lemma_escaping_lengthens(before);
        if escaped(s).len() == s.len() {
            assert forall|i: int| 0 <= i < s.len() implies !(#[trigger] s[i] == '<' || s[i] == '>'
                || s[i] == '&' || s[i] == '\'' || s[i] == '"') by {
                if i < before.len() {
                    assert(before[i] == s[i]);
                }
            }
        }
    }
}

/// Text without any of the five characters, and no other, is its own HTML form.
pub proof fn law_harmless_text_is_unchanged(s: Seq<char>)
    ensures
        escaped(s) == s <==> harmless(s),
    decreases s.len(),
{
    lemma_escaping_lengthens(s);
    if harmless(s) && s.len() > 0 {
        let before = s.drop_last();
        assert(harmless(before)) by {
            assert forall|i: int| 0 <= i < before.len() implies !(#[trigger] before[i] == '<'
                || before[i] == '>' || before[i] == '&' || before[i] == '\'' || before[i] == '"') by {
                assert(before[i] == s[i]);
            }
        }
        law_harmless_text_is_unchanged(before);
        assert(s[s.len() - 1] == s.last());
        assert(escaped_char(s.last()) == seq![s.last()]);
        assert(escaped(s) == before + seq![s.last()]);
        assert(before + seq![s.last()] == s);
    } else if harmless(s) {
        assert(escaped(s) == s);
    }
}

/// Whether a text begins with one of the five references.
pub open spec fn begins_with_reference(html: Seq<char>) -> bool {
    ||| begins_with(html, seq!['&', 'g', 't', ';'])
    ||| begins_with(html, seq!['&', 'l', 't', ';'])
    ||| begins_with(html, seq!['&', 'a', 'm', 'p', ';'])
    ||| begins_with(html, seq!['&', '#', '3', '9', ';'])
    ||| begins_with(html, seq!['&', 'q', 'u', 'o', 't', ';'])
}

/// Every ampersand in an HTML form begins one of the five references.
pub proof fn law_ampersands_begin_references(s: Seq<char>)
    ensures
        forall|i: int|
            0 <= i < escaped(s).len() && #[trigger] escaped(s)[i] == '&' ==> begins_with_reference(
                escaped(s).skip(i),
            ),
    decreases s.len(),
{
    if s.len() > 0 {
        let before = escaped(s.drop_last());
        let last = escaped_char(s.last());
        let html = escaped(s);
        law_ampersands_begin_references(s.drop_last());
        assert forall|i: int| 0 <= i < html.len() && #[trigger] html[i] == '&' implies
            begins_with_reference(html.skip(i)) by {
            if i < before.len() {
                assert(before[i] == '&');
                assert(begins_with_reference(before.skip(i)));
                assert(html.skip(i) == before.skip(i) + last);
            } else {
                assert(last[i - before.len()] == '&');
                assert(i == before.len());
                assert(html.skip(i) == last);
            }
        }
    }
}

/// What stands for a character is read back as the character.
proof fn lemma_unescape_first(c: char, tail: Seq<char>)
    ensures
        unescaped(escaped_char(c) + tail) == seq![c] + unescaped(tail),
{
    let html = escaped_char(c) + tail;
    let n = escaped_char(c).len() as int;
    assert(html.skip(n) == tail);
    assert(html[0] == escaped_char(c)[0]);
    if c == '>' {
        assert(begins_with(html, seq!['&', 'g', 't', ';']));
    } else if c == '<' {
        assert(html[1] == 'l');
        lemma_not_begun(html, seq!['&', 'g', 't', ';']);
        assert(begins_with(html, seq!['&', 'l', 't', ';']));
    } else if c == '&' {
        assert(html[1] == 'a');
        lemma_not_begun(html, seq!['&', 'g', 't', ';']);
        lemma_not_begun(html, seq!['&', 'l', 't', ';']);
        assert(begins_with(html, seq!['&', 'a', 'm', 'p', ';']));
    } else if c == '\'' {
        assert(html[1] == '#');
        lemma_not_begun(html, seq!['&', 'g', 't', ';']);
        lemma_not_begun(html, seq!['&', 'l', 't', ';']);
        lemma_not_begun(html, seq!['&', 'a', 'm', 'p', ';']);
        assert(begins_with(html, seq!['&', '#', '3', '9', ';']));
    } else if c == '"' {
        assert(html[1] == 'q');
        lemma_not_begun(html, seq!['&', 'g', 't', ';']);
        lemma_not_begun(html, seq!['&', 'l', 't', ';']);
        lemma_not_begun(html, seq!['&', 'a', 'm', 'p', ';']);
        lemma_not_begun(html, seq!['&', '#', '3', '9', ';']);
        assert(begins_with(html, seq!['&', 'q', 'u', 'o', 't', ';']));
    } else {
        assert(html[0] == c);
        lemma_not_begun(html, seq!['&', 'g', 't', ';']);
        lemma_not_begun(html, seq!['&', 'l', 't', ';']);
        lemma_not_begun(html, seq!['&', 'a', 'm', 'p', ';']);
        lemma_not_begun(html, seq!['&', '#', '3', '9', ';']);
        lemma_not_begun(html, seq!['&', 'q', 'u', 'o', 't', ';']);
    }
}

proof fn lemma_not_begun(html: Seq<char>, start: Seq<char>)
    requires
        start.len() > 1,
        html.len() > 0,
        html[0] != start[0] || html.len() > 1 && html[1] != start[1],
    ensures
        !begins_with(html, start),
{
}

/// Reading an HTML form back gives the text: nothing is lost, and no two texts
/// have the same form.
pub proof fn law_unescape_escape(s: Seq<char>)
    ensures
        unescaped(escaped(s)) == s,
    decreases s.len(),
{
    if s.len() > 0 {
        let first = seq![s[0]];
        let rest = s.drop_first();
        law_unescape_escape(rest);
        law_escape_by_parts(first, rest);
        assert(first + rest == s);
        assert(escaped(first) == escaped_char(s[0])) by {
            assert(first.drop_last() == Seq::<char>::empty());
            assert(escaped(first.drop_last()) + escaped_char(s[0]) == escaped_char(s[0]));
        }
        lemma_unescape_first(s[0], escaped(rest));
    }
}

}
