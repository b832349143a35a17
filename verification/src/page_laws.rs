//! What holds of painted pages: spans are closed in the order in which they
//! were opened, and the text of a line is shown once, in order.

use vstd::prelude::*;

use crate::markup::{
    advances, all_closed, all_edited, caught_up, chunk, edited, finished, fits, marked, painted,
    reopened, shown, written, Change, Edit, Page, Scan, Token,
};
use crate::text;

verus! {

/// How many spans are open after the pieces.
pub open spec fn depth(tokens: Seq<Token>) -> int
    decreases tokens.len(),
{
    if tokens.len() == 0 {
        0
    } else {
        depth(tokens.drop_last()) + match tokens.last() {
            Token::SpanOpen(_) => 1int,
            Token::SpanClose => -1int,
            _ => 0int,
        }
    }
}

/// Whether no piece starts or ends a line, and none closes a span that was not
/// opened.
pub open spec fn nested(tokens: Seq<Token>) -> bool
    decreases tokens.len(),
{
    tokens.len() > 0 ==> {
        &&& nested(tokens.drop_last())
        &&& depth(tokens) >= 0
        &&& !(tokens.last() is CodeOpen)
        &&& !(tokens.last() is CodeClose)
    }
}

/// Whether the pieces, taken for themselves, open and close spans in order.
pub open spec fn balanced(tokens: Seq<Token>) -> bool {
    nested(tokens) && depth(tokens) == 0
}

/// The text of the pieces.
pub open spec fn shown_text(tokens: Seq<Token>) -> Seq<char>
    decreases tokens.len(),
{
    if tokens.len() == 0 {
        seq![]
    } else {
        shown_text(tokens.drop_last()) + match tokens.last() {
            Token::Text(text) => text,
            _ => seq![],
        }
    }
}

/// How many spans are open after the edits, where `open` were before.
pub open spec fn open_after(open: int, edits: Seq<Edit>) -> int
    decreases edits.len(),
{
    if edits.len() == 0 {
        open
    } else {
        open_after(open, edits.drop_last()) + match edits.last() {
            Edit::Open(_) => 1int,
            Edit::Close => -1int,
        }
    }
}

/// Whether every edit that closes a span finds one open.
pub open spec fn closes_find_spans(open: int, edits: Seq<Edit>) -> bool
    decreases edits.len(),
{
    edits.len() > 0 ==> {
        &&& closes_find_spans(open, edits.drop_last())
        &&& edits.last() is Close ==> open_after(open, edits.drop_last()) > 0
    }
}

/// How many spans are open after the changes of a line.
pub open spec fn open_after_changes(open: int, changes: Seq<Change>) -> int
    decreases changes.len(),
{
    if changes.len() == 0 {
        open
    } else {
        open_after(open_after_changes(open, changes.drop_last()), changes.last().edits)
    }
}

/// Whether every change that closes a span finds one open.
pub open spec fn changes_find_spans(open: int, changes: Seq<Change>) -> bool
    decreases changes.len(),
{
    changes.len() > 0 ==> {
        &&& changes_find_spans(open, changes.drop_last())
        &&& closes_find_spans(
            open_after_changes(open, changes.drop_last()),
            changes.last().edits,
        )
    }
}

/// Whether a text is one line: it holds a line feed at its end at most.
pub open spec fn one_line(line: Seq<char>) -> bool {
    forall|i: int| 0 <= i < line.len() - 1 ==> line[i] != '\n'
}

/// The classes of the spans that are open after the pieces, the innermost last.
pub open spec fn enclosing(tokens: Seq<Token>) -> Seq<Seq<char>>
    decreases tokens.len(),
{
    if tokens.len() == 0 {
        seq![]
    } else {
        let before = enclosing(tokens.drop_last());
        match tokens.last() {
            Token::SpanOpen(class) => before.push(class),
            Token::SpanClose => if before.len() == 0 {
                before
            } else {
                before.drop_last()
            },
            _ => before,
        }
    }
}

/// For each character that the pieces show, the classes of the spans that it
/// stands in, the innermost last.
pub open spec fn dress(tokens: Seq<Token>) -> Seq<Seq<Seq<char>>>
    decreases tokens.len(),
{
    if tokens.len() == 0 {
        seq![]
    } else {
        dress(tokens.drop_last()) + match tokens.last() {
            Token::Text(text) => Seq::new(text.len(), |i: int| enclosing(tokens.drop_last())),
            _ => seq![],
        }
    }
}

/// The classes that are open after edits, where `open` were before.
pub open spec fn stack_after(open: Seq<Seq<char>>, edits: Seq<Edit>) -> Seq<Seq<char>>
    decreases edits.len(),
{
    if edits.len() == 0 {
        open
    } else {
        let before = stack_after(open, edits.drop_last());
        match edits.last() {
            Edit::Open(class) => before.push(class),
            Edit::Close => if before.len() == 0 {
                before
            } else {
                before.drop_last()
            },
        }
    }
}

/// The classes that are open after changes, where `open` were before.
pub open spec fn stack_after_changes(open: Seq<Seq<char>>, changes: Seq<Change>) -> Seq<Seq<char>>
    decreases changes.len(),
{
    if changes.len() == 0 {
        open
    } else {
        stack_after(stack_after_changes(open, changes.drop_last()), changes.last().edits)
    }
}

/// The changes up to the first one beyond an offset.
pub open spec fn changes_until(changes: Seq<Change>, at: int) -> Seq<Change>
    decreases changes.len(),
{
    if changes.len() == 0 {
        changes
    } else {
        let before = changes_until(changes.drop_last(), at);
        if before.len() == changes.len() - 1 && changes.last().at <= at {
            changes
        } else {
            before
        }
    }
}

/// The classes of the spans that the pieces open, in order.
pub open spec fn opened(tokens: Seq<Token>) -> Seq<Seq<char>>
    decreases tokens.len(),
{
    if tokens.len() == 0 {
        seq![]
    } else {
        match tokens.last() {
            Token::SpanOpen(class) => opened(tokens.drop_last()).push(class),
            _ => opened(tokens.drop_last()),
        }
    }
}

/// The classes of the spans that edits open, in order.
pub open spec fn openings(edits: Seq<Edit>) -> Seq<Seq<char>>
    decreases edits.len(),
{
    if edits.len() == 0 {
        seq![]
    } else {
        match edits.last() {
            Edit::Open(class) => openings(edits.drop_last()).push(class),
            Edit::Close => openings(edits.drop_last()),
        }
    }
}

/// The classes of the spans that changes open, in order.
pub open spec fn change_openings(changes: Seq<Change>) -> Seq<Seq<char>>
    decreases changes.len(),
{
    if changes.len() == 0 {
        seq![]
    } else {
        change_openings(changes.drop_last()) + openings(changes.last().edits)
    }
}

/// Whether classes are among others, in the same order.
pub open spec fn in_order_among(some: Seq<Seq<char>>, all: Seq<Seq<char>>) -> bool
    decreases all.len(),
{
    if some.len() == 0 {
        true
    } else if all.len() == 0 {
        false
    } else {
        ||| some.last() == all.last() && in_order_among(some.drop_last(), all.drop_last())
        ||| in_order_among(some, all.drop_last())
    }
}

/// Whether a change lies behind a character of a line.
pub open spec fn passed(line: Seq<char>, i: int, changes: Seq<Change>) -> bool {
    exists|k: int|
        0 <= k < changes.len() && text::byte_len(line.take(i + 1)) <= (#[trigger] changes[k]).at
}

/// Whether a character of a line is shown in an element: it does not belong to
/// the white space at the end, or a change lies behind it and it is no line feed.
pub open spec fn is_shown(line: Seq<char>, i: int, changes: Seq<Change>) -> bool {
    i < text::trimmed_end(line).len() || (line[i] != '\n' && passed(line, i, changes))
}

/// Whether a text has as many characters as are shown of a line in an element.
pub open spec fn shows_part(text: Seq<char>, line: Seq<char>, changes: Seq<Change>) -> bool {
    forall|i: int|
        0 <= i < line.len() ==> #[trigger] is_shown(line, i, changes) == (i < text.len())
}

/// For each of the first characters of a line, the classes that are open there.
pub open spec fn attire(
    open: Seq<Seq<char>>,
    line: Seq<char>,
    changes: Seq<Change>,
    count: nat,
) -> Seq<Seq<Seq<char>>> {
    Seq::new(
        count,
        |i: int|
            stack_after_changes(
                open,
                changes_until(changes, text::byte_len(line.take(i)) as int),
            ),
    )
}

// What the steps of painting keep

/// The pieces that came after `base`.
spec fn added(page: Page, base: Seq<Token>) -> Seq<Token> {
    page.tokens.skip(base.len() as int)
}

/// Whether the page goes on from `base`, with the spans that it takes for open
/// open in what it adds.
spec fn sound(page: Page, base: Seq<Token>) -> bool {
    &&& base.len() <= page.tokens.len()
    &&& page.tokens.take(base.len() as int) == base
    &&& nested(added(page, base))
    &&& depth(added(page, base)) == page.open.len()
}

/// Whether a span that was just opened is what the page ends with.
spec fn settled(page: Page, base: Seq<Token>) -> bool {
    page.fresh ==> base.len() < page.tokens.len() && page.tokens.last() is SpanOpen
}

proof fn lemma_added_push(page: Page, base: Seq<Token>, token: Token)
    requires
        base.len() <= page.tokens.len(),
        page.tokens.take(base.len() as int) == base,
    ensures
        added(written(page, token), base) == added(page, base).push(token),
        added(written(page, token), base).drop_last() == added(page, base),
        written(page, token).tokens.take(base.len() as int) == base,
{
    assert(added(written(page, token), base) == added(page, base).push(token));
    assert(added(page, base).push(token).drop_last() == added(page, base));
    assert(written(page, token).tokens.take(base.len() as int) == base);
}

proof fn lemma_edit(page: Page, base: Seq<Token>, edit: Edit)
    requires
        sound(page, base),
        settled(page, base),
        edit is Close ==> page.open.len() > 0,
    ensures
        sound(edited(page, edit), base),
        settled(edited(page, edit), base),
        shown_text(added(edited(page, edit), base)) == shown_text(added(page, base)),
        edited(page, edit).open.len() == open_after(page.open.len() as int, seq![edit]),
{
    assert(seq![edit].drop_last() == Seq::<Edit>::empty());
    assert(open_after(page.open.len() as int, seq![edit].drop_last()) == page.open.len());
    let after = edited(page, edit);
    match edit {
        Edit::Open(class) => {
            lemma_added_push(page, base, Token::SpanOpen(class));
            assert(after.tokens == written(page, Token::SpanOpen(class)).tokens);
            assert(added(after, base) == added(written(page, Token::SpanOpen(class)), base));
            assert(shown_text(added(after, base)) == shown_text(added(page, base)));
        },
        Edit::Close => {
            if page.fresh {
                let body = added(page, base);
                assert(after.tokens == page.tokens.drop_last());
                assert(body.last() == page.tokens.last());
                assert(added(after, base) == body.drop_last());
                assert(after.tokens.take(base.len() as int) == base);
                assert(shown_text(body) == shown_text(body.drop_last()));
            } else {
                lemma_added_push(page, base, Token::SpanClose);
                assert(added(after, base) == added(written(page, Token::SpanClose), base));
                assert(shown_text(added(after, base)) == shown_text(added(page, base)));
            }
        },
    }
}

proof fn lemma_open_after_one(open: int, edits: Seq<Edit>)
    requires
        edits.len() > 0,
    ensures
        open_after(open, edits) == open_after(
            open_after(open, edits.drop_last()),
            seq![edits.last()],
        ),
{
    let before = open_after(open, edits.drop_last());
    assert(seq![edits.last()].drop_last() == Seq::<Edit>::empty());
    assert(open_after(before, seq![edits.last()].drop_last()) == before);
}

proof fn lemma_edits(page: Page, base: Seq<Token>, edits: Seq<Edit>)
    requires
        sound(page, base),
        settled(page, base),
        closes_find_spans(page.open.len() as int, edits),
    ensures
        sound(all_edited(page, edits), base),
        settled(all_edited(page, edits), base),
        shown_text(added(all_edited(page, edits), base)) == shown_text(added(page, base)),
        all_edited(page, edits).open.len() == open_after(page.open.len() as int, edits),
    decreases edits.len(),
{
    if edits.len() > 0 {
        lemma_edits(page, base, edits.drop_last());
        lemma_edit(all_edited(page, edits.drop_last()), base, edits.last());
        lemma_open_after_one(page.open.len() as int, edits);
    }
}

proof fn lemma_write_text(page: Page, base: Seq<Token>, text: Seq<char>)
    requires
        sound(page, base),
    ensures
        sound(written(page, Token::Text(text)), base),
        shown_text(added(written(page, Token::Text(text)), base)) == shown_text(added(page, base))
            + text,
{
    lemma_added_push(page, base, Token::Text(text));
}

/// What is shown of a line up to an offset.
spec fn shown_until(line: Seq<char>, reached: int, code_tag: bool) -> Seq<char> {
    let head = line.take(text::chars_before(line, reached));
    if code_tag {
        text::without_line_feeds(head)
    } else {
        head
    }
}

/// The part of a line that is shown, where its changes reach an offset.
spec fn part(line: Seq<char>, reached: int, code_tag: bool) -> Seq<char> {
    if text::byte_len(shown(line, code_tag)) > reached {
        shown(line, code_tag)
    } else {
        shown_until(line, reached, code_tag)
    }
}

proof fn lemma_no_line_feed(s: Seq<char>)
    requires
        forall|i: int| 0 <= i < s.len() ==> s[i] != '\n',
    ensures
        text::without_line_feeds(s) == s,
{
}

/// Without a line feed but at its end, a line loses that one at most.
proof fn lemma_line_feed_of_line(s: Seq<char>)
    requires
        one_line(s),
    ensures
        text::without_line_feeds(s) == if s.len() > 0 && s.last() == '\n' {
            s.drop_last()
        } else {
            s
        },
{
    if s.len() > 0 && s.last() == '\n' {
        lemma_no_line_feed(s.drop_last());
    }
}

proof fn lemma_chunks_join(line: Seq<char>, from: int, to: int, code_tag: bool)
    requires
        one_line(line),
        text::cuttable(line, from),
        text::cuttable(line, to),
        from < to,
    ensures
        shown_until(line, from, code_tag) + chunk(line, from, to, code_tag) == shown_until(
            line,
            to,
            code_tag,
        ),
{
    text::lemma_between(line, from, to);
    text::lemma_head(line, from);
    text::lemma_head(line, to);
    let a = text::chars_before(line, from);
    let b = text::chars_before(line, to);
    assert(a < b) by {
        if a == b {
            assert(line.take(a) == line.take(b));
        }
    }
    let head = line.take(a);
    let piece = line.subrange(a, b);
    assert(head + piece == line.take(b));
    if code_tag {
        lemma_no_line_feed(head);
        lemma_line_feed_of_line(piece);
        lemma_line_feed_of_line(line.take(b));
        assert(piece.last() == line.take(b).last());
        assert(head + piece.drop_last() == line.take(b).drop_last());
    }
}

proof fn lemma_fits_prefix(line: Seq<char>, changes: Seq<Change>)
    requires
        fits(line, changes),
        changes.len() > 0,
    ensures
        fits(line, changes.drop_last()),
{
    let before = changes.drop_last();
    assert forall|k: int|
        0 <= k < before.len() && #[trigger] advances(before, k) implies text::cuttable(
        line,
        before[k].at,
    ) by {
        assert(before[k] == changes[k]);
        assert(advances(changes, k)) by {
            assert forall|j: int| 0 <= j < k implies (#[trigger] changes[j]).at < changes[k].at by {
                assert(before[j].at < before[k].at);
            }
        }
    }
}

/// The offset that was reached is where the line can be cut, and no change has
/// gone beyond it.
proof fn lemma_reached(page: Page, line: Seq<char>, changes: Seq<Change>, code_tag: bool)
    requires
        fits(line, changes),
    ensures
        ({
            let reached = marked(page, line, changes, code_tag).1;
            &&& text::cuttable(line, reached)
            &&& reached >= 0
            &&& forall|j: int| 0 <= j < changes.len() ==> (#[trigger] changes[j]).at <= reached
            &&& reached == 0 || exists|j: int|
                0 <= j < changes.len() && (#[trigger] changes[j]).at == reached
        }),
    decreases changes.len(),
{
    vstd::utf8::encode_utf8_valid_utf8(line);
    if changes.len() > 0 {
        let before = changes.drop_last();
        let last = changes.len() - 1;
        lemma_fits_prefix(line, changes);
        lemma_reached(page, line, before, code_tag);
        let reached = marked(page, line, before, code_tag).1;
        assert forall|j: int| 0 <= j < last implies (#[trigger] changes[j]).at <= reached by {
            assert(before[j].at <= reached);
        }
        if changes[last].at > reached {
            assert(advances(changes, last));
        } else if reached > 0 {
            let j = choose|j: int| 0 <= j < before.len() && (#[trigger] before[j]).at == reached;
            assert(changes[j].at == reached);
        }
    }
}

proof fn lemma_changes(
    page: Page,
    base: Seq<Token>,
    line: Seq<char>,
    changes: Seq<Change>,
    code_tag: bool,
)
    requires
        sound(page, base),
        settled(page, base),
        one_line(line),
        fits(line, changes),
        changes_find_spans(page.open.len() as int, changes),
    ensures
        ({
            let (after, reached) = marked(page, line, changes, code_tag);
            &&& sound(after, base)
            &&& settled(after, base)
            &&& after.open.len() == open_after_changes(page.open.len() as int, changes)
            &&& shown_text(added(after, base)) == shown_text(added(page, base)) + shown_until(
                line,
                reached,
                code_tag,
            )
        }),
    decreases changes.len(),
{
    vstd::utf8::encode_utf8_valid_utf8(line);
    if changes.len() == 0 {
        text::lemma_head(line, 0);
        assert(vstd::utf8::encode_utf8(line).subrange(0, 0) == Seq::<u8>::empty());
        assert(text::chars_before(line, 0) == 0);
        assert(shown_until(line, 0, code_tag) == Seq::<char>::empty());
        assert(shown_text(added(page, base)) + Seq::<char>::empty() == shown_text(
            added(page, base),
        ));
    } else {
        let before = changes.drop_last();
        let change = changes.last();
        lemma_fits_prefix(line, changes);
        lemma_changes(page, base, line, before, code_tag);
        lemma_reached(page, line, before, code_tag);
        lemma_reached(page, line, changes, code_tag);
        let (half, reached) = marked(page, line, before, code_tag);
        let caught = caught_up(half, line, reached, change.at, code_tag);
        if change.at > reached {
            let piece = chunk(line, reached, change.at, code_tag);
            lemma_write_text(half, base, piece);
            lemma_chunks_join(line, reached, change.at, code_tag);
            assert(added(caught, base) == added(written(half, Token::Text(piece)), base));
            let first = shown_text(added(page, base));
            assert(first + shown_until(line, reached, code_tag) + piece == first + shown_until(
                line,
                change.at,
                code_tag,
            ));
        }
        lemma_edits(caught, base, change.edits);
    }
}

/// Trimming a text again changes nothing.
proof fn lemma_trim_twice(s: Seq<char>)
    ensures
        text::trimmed_end(text::trimmed_end(s)) == text::trimmed_end(s),
    decreases s.len(),
{
    if s.len() > 0 && text::white_space(s.last()) {
        lemma_trim_twice(s.drop_last());
    }
}

/// A beginning of a text that reaches beyond where trimming cuts it is trimmed
/// to the same.
proof fn lemma_trim_beginning(s: Seq<char>, n: int)
    requires
        text::trimmed_end(s).len() <= n <= s.len(),
    ensures
        text::trimmed_end(s.take(n)) == text::trimmed_end(s),
    decreases s.len(),
{
    if n == s.len() {
        assert(s.take(n) == s);
    } else {
        text::lemma_trimmed_end_is_prefix(s);
        if s.len() > 0 && text::white_space(s.last()) {
            lemma_trim_beginning(s.drop_last(), n);
            assert(s.drop_last().take(n) == s.take(n));
        }
    }
}

/// How the text that is shown of a line relates to the line. Where lines are
/// no elements, it is the line. Where they are, it is the line without its line
/// feed and perhaps without some of the white space at its end.
pub open spec fn shows(shown: Seq<char>, line: Seq<char>, code_tag: bool) -> bool {
    if code_tag {
        &&& shown.len() <= line.len()
        &&& shown == line.take(shown.len() as int)
        &&& text::trimmed_end(shown) == text::trimmed_end(line)
        &&& !shown.contains('\n')
    } else {
        shown == line
    }
}

/// Trimming leaves no line feed in a line.
proof fn lemma_trimmed_has_no_line_feed(line: Seq<char>)
    requires
        one_line(line),
    ensures
        text::trimmed_end(line).len() <= line.len(),
        forall|i: int| 0 <= i < text::trimmed_end(line).len() ==> line[i] != '\n',
{
    text::lemma_trimmed_end_is_prefix(line);
    if line.len() > 0 && text::white_space(line.last()) {
        text::lemma_trimmed_end_is_prefix(line.drop_last());
    }
}

proof fn lemma_finish(
    page: Page,
    base: Seq<Token>,
    first: Seq<char>,
    line: Seq<char>,
    reached: int,
    code_tag: bool,
)
    requires
        sound(page, base),
        one_line(line),
        text::cuttable(line, reached),
        shown_text(added(page, base)) == first + shown_until(line, reached, code_tag),
    ensures
        ({
            let after = finished(page, line, reached, code_tag);
            &&& sound(after, base)
            &&& exists|rest: Seq<char>|
                shown_text(added(after, base)) == first + rest && #[trigger] shows(
                    rest,
                    line,
                    code_tag,
                )
            &&& shown_text(added(after, base)) == first + part(line, reached, code_tag)
        }),
{
    vstd::utf8::encode_utf8_valid_utf8(line);
    text::lemma_head(line, reached);
    text::lemma_trimmed_end_is_prefix(line);
    lemma_line_feed_of_line(line);
    let whole = shown(line, code_tag);
    let len = text::byte_len(whole) as int;
    let after = finished(page, line, reached, code_tag);
    let count = text::chars_before(line, reached);
    let head = line.take(count);
    lemma_trimmed_has_no_line_feed(line);
    if len > reached {
        if code_tag {
            text::lemma_cut_prefix(line, whole.len() as int, reached);
            text::lemma_prefix_bytes(line, whole.len() as int);
        } else {
            assert(line.take(line.len() as int) == line);
        }
        assert(whole == line.take(whole.len() as int));
        vstd::utf8::encode_utf8_valid_utf8(whole);
        vstd::utf8::is_char_boundary_start_end_of_seq(vstd::utf8::encode_utf8(whole));
        text::lemma_between(whole, reached, len);
        text::lemma_head(whole, reached);
        text::lemma_head(whole, len);
        let rest = text::byte_slice(whole, reached, len);
        assert(vstd::utf8::encode_utf8(whole).subrange(0, reached) == vstd::utf8::encode_utf8(
            line,
        ).subrange(0, reached));
        assert(text::chars_before(whole, reached) == count);
        assert(vstd::utf8::encode_utf8(whole).subrange(0, len) == vstd::utf8::encode_utf8(whole));
        vstd::utf8::encode_utf8_decode_utf8(whole);
        assert(text::chars_before(whole, len) == whole.len());
        assert(head + rest == whole);
        lemma_write_text(page, base, rest);
        if code_tag {
            lemma_no_line_feed(head);
            lemma_trim_twice(line);
        }
        assert(shown_until(line, reached, code_tag) == head);
        assert(first + head + rest == first + whole);
        assert(shows(whole, line, code_tag));
    } else {
        let until = shown_until(line, reached, code_tag);
        if code_tag {
            assert(one_line(head));
            lemma_line_feed_of_line(head);
            assert(whole.len() <= count) by {
                if whole.len() > count {
                    lemma_more_chars_more_bytes(line, count, whole.len() as int);
                }
            }
            if head.len() > 0 && head.last() == '\n' {
                assert(until == line.take(count - 1));
                assert(whole.len() < count) by {
                    if whole.len() == count {
                        assert(line[count - 1] != '\n');
                    }
                }
                lemma_trim_beginning(line, count - 1);
            } else {
                lemma_trim_beginning(line, count);
            }
            assert(until == line.take(until.len() as int));
        } else {
            assert(count == line.len()) by {
                if count < line.len() {
                    lemma_more_chars_more_bytes(line, count, line.len() as int);
                    assert(line.take(line.len() as int) == line);
                }
            }
            assert(head == line);
        }
        assert(shows(until, line, code_tag));
    }
}

/// A longer beginning of a text has more bytes.
proof fn lemma_more_chars_more_bytes(s: Seq<char>, m: int, n: int)
    requires
        0 <= m < n <= s.len(),
    ensures
        text::byte_len(s.take(m)) < text::byte_len(s.take(n)),
{
    let more = s.subrange(m, n);
    assert(s.take(n) == s.take(m) + more);
    text::lemma_encode_concat(s.take(m), more);
    vstd::utf8::encode_utf8_first_scalar(more);
}

proof fn lemma_passed(line: Seq<char>, changes: Seq<Change>, reached: int, i: int)
    requires
        text::cuttable(line, reached),
        forall|j: int| 0 <= j < changes.len() ==> (#[trigger] changes[j]).at <= reached,
        reached == 0 || exists|j: int|
            0 <= j < changes.len() && (#[trigger] changes[j]).at == reached,
        0 <= i < line.len(),
    ensures
        passed(line, i, changes) == (i < text::chars_before(line, reached)),
{
    text::lemma_head(line, reached);
    let count = text::chars_before(line, reached);
    lemma_more_chars_more_bytes(line, i, i + 1);
    if i < count {
        if i + 1 < count {
            lemma_more_chars_more_bytes(line, i + 1, count);
        }
        let j = choose|j: int| 0 <= j < changes.len() && (#[trigger] changes[j]).at == reached;
        assert(text::byte_len(line.take(i + 1)) <= changes[j].at);
    } else {
        lemma_more_chars_more_bytes(line, count, i + 1);
    }
}

/// Of a line in an element, white space at the end is shown only where a change
/// lies behind it, and the line feed never.
proof fn lemma_part(line: Seq<char>, changes: Seq<Change>, reached: int)
    requires
        one_line(line),
        text::cuttable(line, reached),
        forall|j: int| 0 <= j < changes.len() ==> (#[trigger] changes[j]).at <= reached,
        reached == 0 || exists|j: int|
            0 <= j < changes.len() && (#[trigger] changes[j]).at == reached,
    ensures
        shows_part(part(line, reached, true), line, changes),
{
    vstd::utf8::encode_utf8_valid_utf8(line);
    text::lemma_head(line, reached);
    text::lemma_trimmed_end_is_prefix(line);
    lemma_trimmed_has_no_line_feed(line);
    let whole = text::trimmed_end(line);
    let count = text::chars_before(line, reached);
    let head = line.take(count);
    assert(one_line(head));
    lemma_line_feed_of_line(head);
    if text::byte_len(whole) > reached {
        assert(whole.len() > count) by {
            if whole.len() < count {
                lemma_more_chars_more_bytes(line, whole.len() as int, count);
            }
        }
    } else {
        assert(whole.len() <= count) by {
            if whole.len() > count {
                lemma_more_chars_more_bytes(line, count, whole.len() as int);
            }
        }
        if head.len() > 0 && head.last() == '\n' {
            assert(head.last() == line[count - 1]);
        }
    }
    assert forall|i: int| 0 <= i < line.len() implies #[trigger] is_shown(line, i, changes) == (i
        < part(line, reached, true).len()) by {
        lemma_passed(line, changes, reached, i);
        if i < count {
            assert(head[i] == line[i]);
        }
        if head.len() > 0 && head.last() == '\n' {
            assert(line[count - 1] == '\n');
        }
    }
}

// What characters stand in

/// Whether the spans that are open in what the page adds are those that it takes
/// for open.
spec fn worn(page: Page, base: Seq<Token>) -> bool {
    enclosing(added(page, base)) == page.open
}

/// Every character that is shown stands in spans.
pub proof fn lemma_dress_len(tokens: Seq<Token>)
    ensures
        dress(tokens).len() == shown_text(tokens).len(),
    decreases tokens.len(),
{
    if tokens.len() > 0 {
        lemma_dress_len(tokens.drop_last());
    }
}

proof fn lemma_edit_dress(page: Page, base: Seq<Token>, edit: Edit)
    requires
        sound(page, base),
        settled(page, base),
        worn(page, base),
    ensures
        worn(edited(page, edit), base),
        dress(added(edited(page, edit), base)) == dress(added(page, base)),
        edited(page, edit).open == stack_after(page.open, seq![edit]),
{
    assert(seq![edit].drop_last() == Seq::<Edit>::empty());
    assert(stack_after(page.open, seq![edit].drop_last()) == page.open);
    let after = edited(page, edit);
    let body = added(page, base);
    match edit {
        Edit::Open(class) => {
            assert(added(after, base) == body.push(Token::SpanOpen(class)));
            assert(added(after, base).drop_last() == body);
            assert(dress(body) + Seq::<Seq<Seq<char>>>::empty() == dress(body));
        },
        Edit::Close => {
            if page.fresh {
                assert(body.last() == page.tokens.last());
                assert(added(after, base) == body.drop_last());
                assert(dress(body.drop_last()) + Seq::<Seq<Seq<char>>>::empty() == dress(
                    body.drop_last(),
                ));
                assert(page.open.drop_last() == enclosing(body.drop_last()));
            } else {
                assert(added(after, base) == body.push(Token::SpanClose));
                assert(added(after, base).drop_last() == body);
                assert(dress(body) + Seq::<Seq<Seq<char>>>::empty() == dress(body));
            }
        },
    }
}

proof fn lemma_stack_after_one(open: Seq<Seq<char>>, edits: Seq<Edit>)
    requires
        edits.len() > 0,
    ensures
        stack_after(open, edits) == stack_after(
            stack_after(open, edits.drop_last()),
            seq![edits.last()],
        ),
{
    let before = stack_after(open, edits.drop_last());
    assert(seq![edits.last()].drop_last() == Seq::<Edit>::empty());
    assert(stack_after(before, seq![edits.last()].drop_last()) == before);
}

proof fn lemma_edits_dress(page: Page, base: Seq<Token>, edits: Seq<Edit>)
    requires
        sound(page, base),
        settled(page, base),
        worn(page, base),
        closes_find_spans(page.open.len() as int, edits),
    ensures
        worn(all_edited(page, edits), base),
        dress(added(all_edited(page, edits), base)) == dress(added(page, base)),
        all_edited(page, edits).open == stack_after(page.open, edits),
    decreases edits.len(),
{
    if edits.len() > 0 {
        lemma_edits(page, base, edits.drop_last());
        lemma_edits_dress(page, base, edits.drop_last());
        lemma_edit_dress(all_edited(page, edits.drop_last()), base, edits.last());
        lemma_stack_after_one(page.open, edits);
    }
}

proof fn lemma_text_dress(page: Page, base: Seq<Token>, text: Seq<char>)
    requires
        sound(page, base),
        worn(page, base),
    ensures
        worn(written(page, Token::Text(text)), base),
        dress(added(written(page, Token::Text(text)), base)) == dress(added(page, base)) + Seq::new(
            text.len(),
            |i: int| page.open,
        ),
{
    lemma_added_push(page, base, Token::Text(text));
    assert(Seq::new(text.len(), |i: int| page.open) == Seq::new(
        text.len(),
        |i: int| enclosing(added(page, base)),
    ));
}

/// A change beyond an offset ends what holds there.
proof fn lemma_until_stops(changes: Seq<Change>, j: int, at: int)
    requires
        0 <= j < changes.len() - 1,
        changes[j].at > at,
    ensures
        changes_until(changes, at) == changes_until(changes.drop_last(), at),
{
    lemma_until_short(changes.drop_last(), j, at);
}

proof fn lemma_until_short(changes: Seq<Change>, j: int, at: int)
    requires
        0 <= j < changes.len(),
        changes[j].at > at,
    ensures
        changes_until(changes, at).len() < changes.len(),
    decreases changes.len(),
{
    if j < changes.len() - 1 {
        lemma_until_short(changes.drop_last(), j, at);
    } else {
        lemma_until_len(changes.drop_last(), at);
    }
}

proof fn lemma_until_len(changes: Seq<Change>, at: int)
    ensures
        changes_until(changes, at).len() <= changes.len(),
    decreases changes.len(),
{
    if changes.len() > 0 {
        lemma_until_len(changes.drop_last(), at);
    }
}

/// Where no change lies beyond an offset, all of them hold there.
proof fn lemma_until_all(changes: Seq<Change>, at: int)
    requires
        forall|j: int| 0 <= j < changes.len() ==> (#[trigger] changes[j]).at <= at,
    ensures
        changes_until(changes, at) == changes,
    decreases changes.len(),
{
    if changes.len() > 0 {
        let before = changes.drop_last();
        assert(forall|j: int| 0 <= j < before.len() ==> before[j] == changes[j]);
        lemma_until_all(before, at);
        assert(changes[changes.len() - 1].at <= at);
    }
}

/// The offset of a character before the reached one lies before it.
proof fn lemma_earlier_char(line: Seq<char>, reached: int, i: int)
    requires
        text::cuttable(line, reached),
        0 <= i < text::chars_before(line, reached),
    ensures
        text::byte_len(line.take(i)) < reached,
{
    text::lemma_head(line, reached);
    lemma_more_chars_more_bytes(line, i, text::chars_before(line, reached));
}

/// The offset of a character behind the reached one does not lie before it.
proof fn lemma_later_char(line: Seq<char>, reached: int, i: int)
    requires
        text::cuttable(line, reached),
        text::chars_before(line, reached) <= i <= line.len(),
    ensures
        reached <= text::byte_len(line.take(i)),
{
    text::lemma_head(line, reached);
    let n = text::chars_before(line, reached);
    if n < i {
        lemma_more_chars_more_bytes(line, n, i);
    }
}

proof fn lemma_shown_until_len(line: Seq<char>, reached: int, code_tag: bool)
    requires
        text::cuttable(line, reached),
    ensures
        shown_until(line, reached, code_tag).len() <= text::chars_before(line, reached),
        text::chars_before(line, reached) <= line.len(),
{
    text::lemma_head(line, reached);
    text::lemma_without_line_feeds_is_prefix(line.take(text::chars_before(line, reached)));
}

/// One more change leaves what earlier characters stand in.
proof fn lemma_attire_keeps(
    open: Seq<Seq<char>>,
    line: Seq<char>,
    changes: Seq<Change>,
    reached: int,
    count: nat,
)
    requires
        changes.len() > 0,
        text::cuttable(line, reached),
        count <= text::chars_before(line, reached),
        reached == 0 || exists|j: int|
            0 <= j < changes.len() - 1 && (#[trigger] changes[j]).at == reached,
    ensures
        attire(open, line, changes, count) == attire(open, line, changes.drop_last(), count),
{
    assert forall|i: int| 0 <= i < count implies attire(open, line, changes, count)[i] == attire(
        open,
        line,
        changes.drop_last(),
        count,
    )[i] by {
        lemma_earlier_char(line, reached, i);
        let j = choose|j: int| 0 <= j < changes.len() - 1 && (#[trigger] changes[j]).at == reached;
        lemma_until_stops(changes, j, text::byte_len(line.take(i)) as int);
    }
}

proof fn lemma_changes_dress(
    page: Page,
    base: Seq<Token>,
    line: Seq<char>,
    changes: Seq<Change>,
    code_tag: bool,
)
    requires
        sound(page, base),
        settled(page, base),
        worn(page, base),
        one_line(line),
        fits(line, changes),
        changes_find_spans(page.open.len() as int, changes),
    ensures
        ({
            let (after, reached) = marked(page, line, changes, code_tag);
            &&& worn(after, base)
            &&& after.open == stack_after_changes(page.open, changes)
            &&& dress(added(after, base)) == dress(added(page, base)) + attire(
                page.open,
                line,
                changes,
                shown_until(line, reached, code_tag).len(),
            )
        }),
    decreases changes.len(),
{
    vstd::utf8::encode_utf8_valid_utf8(line);
    let first = dress(added(page, base));
    if changes.len() == 0 {
        text::lemma_head(line, 0);
        assert(vstd::utf8::encode_utf8(line).subrange(0, 0) == Seq::<u8>::empty());
        assert(text::chars_before(line, 0) == 0);
        lemma_shown_until_len(line, 0, code_tag);
        assert(first + attire(page.open, line, changes, 0) == first);
    } else {
        let before = changes.drop_last();
        let change = changes.last();
        lemma_fits_prefix(line, changes);
        lemma_changes(page, base, line, before, code_tag);
        lemma_changes_dress(page, base, line, before, code_tag);
        lemma_reached(page, line, before, code_tag);
        lemma_reached(page, line, changes, code_tag);
        let (half, reached) = marked(page, line, before, code_tag);
        let caught = caught_up(half, line, reached, change.at, code_tag);
        let old_count = shown_until(line, reached, code_tag).len();
        lemma_shown_until_len(line, reached, code_tag);
        if reached > 0 {
            let j = choose|j: int| 0 <= j < before.len() && (#[trigger] before[j]).at == reached;
            assert(changes[j].at == reached);
        }
        lemma_attire_keeps(page.open, line, changes, reached, old_count);
        if change.at > reached {
            let piece = chunk(line, reached, change.at, code_tag);
            lemma_write_text(half, base, piece);
            lemma_text_dress(half, base, piece);
            lemma_chunks_join(line, reached, change.at, code_tag);
            lemma_shown_until_len(line, change.at, code_tag);
            let count = shown_until(line, change.at, code_tag).len();
            assert(count == old_count + piece.len());
            lemma_no_early_line_feed(line, reached, change.at, code_tag);
            let all = attire(page.open, line, changes, count);
            let more = Seq::new(piece.len(), |i: int| half.open);
            assert(all == attire(page.open, line, changes, old_count) + more) by {
                assert forall|i: int| old_count <= i < count implies all[i] == half.open by {
                    let at = text::byte_len(line.take(i)) as int;
                    lemma_later_char(line, reached, i);
                    lemma_earlier_char(line, change.at, i);
                    assert forall|j: int| 0 <= j < before.len() implies (#[trigger] before[j]).at
                        <= at by {
                        assert(before[j].at <= reached);
                    }
                    lemma_until_all(before, at);
                }
            }
            assert(first + attire(page.open, line, changes, old_count) + more == first + all);
        }
        lemma_edits_dress(caught, base, change.edits);
    }
}

/// What is shown before a piece of text is all that stands before it.
proof fn lemma_no_early_line_feed(line: Seq<char>, from: int, to: int, code_tag: bool)
    requires
        one_line(line),
        text::cuttable(line, from),
        text::cuttable(line, to),
        from < to,
    ensures
        shown_until(line, from, code_tag).len() == text::chars_before(line, from),
{
    text::lemma_between(line, from, to);
    text::lemma_head(line, from);
    text::lemma_head(line, to);
    let a = text::chars_before(line, from);
    let b = text::chars_before(line, to);
    assert(a < b) by {
        if a == b {
            assert(line.take(a) == line.take(b));
        }
    }
    lemma_no_line_feed(line.take(a));
}

proof fn lemma_finish_dress(
    page: Page,
    base: Seq<Token>,
    first: Seq<Seq<Seq<char>>>,
    open: Seq<Seq<char>>,
    line: Seq<char>,
    changes: Seq<Change>,
    reached: int,
    code_tag: bool,
)
    requires
        sound(page, base),
        worn(page, base),
        one_line(line),
        text::cuttable(line, reached),
        forall|j: int| 0 <= j < changes.len() ==> (#[trigger] changes[j]).at <= reached,
        page.open == stack_after_changes(open, changes),
        dress(added(page, base)) == first + attire(
            open,
            line,
            changes,
            shown_until(line, reached, code_tag).len(),
        ),
    ensures
        ({
            let after = finished(page, line, reached, code_tag);
            &&& worn(after, base)
            &&& dress(added(after, base)).len() >= first.len()
            &&& dress(added(after, base)) == first + attire(
                open,
                line,
                changes,
                (dress(added(after, base)).len() - first.len()) as nat,
            )
        }),
{
    vstd::utf8::encode_utf8_valid_utf8(line);
    let whole = shown(line, code_tag);
    let len = text::byte_len(whole) as int;
    let after = finished(page, line, reached, code_tag);
    let old_count = shown_until(line, reached, code_tag).len();
    if len > reached {
        text::lemma_trimmed_end_is_prefix(line);
        assert(line.take(line.len() as int) == line);
        text::lemma_prefix_bytes(line, whole.len() as int);
        assert(whole == line.take(whole.len() as int));
        text::lemma_cut_prefix(line, whole.len() as int, reached);
        vstd::utf8::encode_utf8_valid_utf8(whole);
        vstd::utf8::is_char_boundary_start_end_of_seq(vstd::utf8::encode_utf8(whole));
        lemma_no_early_line_feed(line, reached, len, code_tag);
        text::lemma_between(whole, reached, len);
        text::lemma_head(whole, reached);
        text::lemma_head(whole, len);
        text::lemma_head(line, reached);
        let rest = text::byte_slice(whole, reached, len);
        assert(vstd::utf8::encode_utf8(whole).subrange(0, reached) == vstd::utf8::encode_utf8(
            line,
        ).subrange(0, reached));
        let count = text::chars_before(line, reached);
        assert(text::chars_before(whole, reached) == count);
        lemma_text_dress(page, base, rest);
        let all = attire(open, line, changes, old_count + rest.len());
        let more = Seq::new(rest.len(), |i: int| page.open);
        assert(all == attire(open, line, changes, old_count) + more) by {
            assert forall|i: int| old_count <= i < old_count + rest.len() implies all[i]
                == page.open by {
                let at = text::byte_len(line.take(i)) as int;
                lemma_later_char(line, reached, i);
                lemma_until_all(changes, at);
            }
        }
        assert(first + attire(open, line, changes, old_count) + more == first + all);
    }
}

proof fn lemma_reopened_dress(page: Page, base: Seq<Token>)
    requires
        page.tokens == base,
    ensures
        worn(reopened(page), base),
        dress(added(reopened(page), base)) == Seq::<Seq<Seq<char>>>::empty(),
{
    let spans = page.open.map_values(|class: Seq<char>| Token::SpanOpen(class));
    lemma_spans_dress(page.open, page.open.len() as int);
    assert(spans.take(spans.len() as int) == spans);
    assert(page.open.take(page.open.len() as int) == page.open);
    assert(added(reopened(page), base) == spans);
}

proof fn lemma_spans_dress(open: Seq<Seq<char>>, n: int)
    requires
        0 <= n <= open.len(),
    ensures
        ({
            let spans = open.map_values(|class: Seq<char>| Token::SpanOpen(class)).take(n);
            enclosing(spans) == open.take(n) && dress(spans) == Seq::<Seq<Seq<char>>>::empty()
        }),
    decreases n,
{
    let all = open.map_values(|class: Seq<char>| Token::SpanOpen(class));
    if n > 0 {
        lemma_spans_dress(open, n - 1);
        assert(all.take(n).drop_last() == all.take(n - 1));
        assert(open.take(n) == open.take(n - 1).push(open[n - 1]));
        assert(dress(all.take(n)) == Seq::<Seq<Seq<char>>>::empty());
    } else {
        assert(open.take(0) == Seq::<Seq<char>>::empty());
    }
}

/// Closing spans shows nothing.
proof fn lemma_ends_dress(body: Seq<Token>, n: nat)
    ensures
        dress(body + Seq::new(n, |i: int| Token::SpanClose)) == dress(body),
    decreases n,
{
    let after = body + Seq::new(n, |i: int| Token::SpanClose);
    if n == 0 {
        assert(after == body);
    } else {
        lemma_ends_dress(body, (n - 1) as nat);
        assert(after.drop_last() == body + Seq::new((n - 1) as nat, |i: int| Token::SpanClose));
        assert(dress(after) == dress(body));
    }
}

// Which spans are opened

pub(crate) proof fn lemma_among_itself(all: Seq<Seq<char>>)
    ensures
        in_order_among(all, all),
    decreases all.len(),
{
    if all.len() > 0 {
        lemma_among_itself(all.drop_last());
    }
}

proof fn lemma_among_fewer(some: Seq<Seq<char>>, all: Seq<Seq<char>>)
    requires
        some.len() > 0,
        in_order_among(some, all),
    ensures
        in_order_among(some.drop_last(), all),
    decreases all.len(),
{
    let rest = all.drop_last();
    if in_order_among(some, rest) {
        lemma_among_fewer(some, rest);
    }
    assert(in_order_among(some.drop_last(), rest));
}

pub(crate) proof fn lemma_among_more(
    some: Seq<Seq<char>>,
    all: Seq<Seq<char>>,
    more: Seq<Seq<char>>,
)
    requires
        in_order_among(some, all),
    ensures
        in_order_among(some, all + more),
    decreases more.len(),
{
    if more.len() == 0 {
        assert(all + more == all);
    } else {
        lemma_among_more(some, all, more.drop_last());
        assert((all + more).drop_last() == all + more.drop_last());
    }
}

proof fn lemma_among_one_more(some: Seq<Seq<char>>, all: Seq<Seq<char>>, class: Seq<char>)
    requires
        in_order_among(some, all),
    ensures
        in_order_among(some.push(class), all.push(class)),
        in_order_among(some, all.push(class)),
{
    assert(some.push(class).drop_last() == some);
    assert(all.push(class).drop_last() == all);
}

proof fn lemma_edits_open(page: Page, base: Seq<Token>, edits: Seq<Edit>, all: Seq<Seq<char>>)
    requires
        sound(page, base),
        settled(page, base),
        closes_find_spans(page.open.len() as int, edits),
        in_order_among(opened(added(page, base)), all),
    ensures
        in_order_among(opened(added(all_edited(page, edits), base)), all + openings(edits)),
    decreases edits.len(),
{
    if edits.len() == 0 {
        assert(all + openings(edits) == all);
    } else {
        let before = edits.drop_last();
        lemma_edits(page, base, before);
        lemma_edits_open(page, base, before, all);
        let half = all_edited(page, before);
        let after = all_edited(page, edits);
        let body = added(half, base);
        let sofar = all + openings(before);
        match edits.last() {
            Edit::Open(class) => {
                assert(added(after, base) == body.push(Token::SpanOpen(class)));
                assert(added(after, base).drop_last() == body);
                lemma_among_one_more(opened(body), sofar, class);
                assert(sofar.push(class) == all + openings(edits));
            },
            Edit::Close => {
                if half.fresh {
                    assert(body.last() == half.tokens.last());
                    assert(added(after, base) == body.drop_last());
                    lemma_among_fewer(opened(body), sofar);
                    assert(opened(body).drop_last() == opened(body.drop_last()));
                } else {
                    assert(added(after, base) == body.push(Token::SpanClose));
                    assert(added(after, base).drop_last() == body);
                }
            },
        }
    }
}

proof fn lemma_text_opens_nothing(page: Page, base: Seq<Token>, text: Seq<char>)
    requires
        sound(page, base),
    ensures
        opened(added(written(page, Token::Text(text)), base)) == opened(added(page, base)),
{
    lemma_added_push(page, base, Token::Text(text));
}

proof fn lemma_changes_open(
    page: Page,
    base: Seq<Token>,
    line: Seq<char>,
    changes: Seq<Change>,
    code_tag: bool,
    all: Seq<Seq<char>>,
)
    requires
        sound(page, base),
        settled(page, base),
        one_line(line),
        fits(line, changes),
        changes_find_spans(page.open.len() as int, changes),
        in_order_among(opened(added(page, base)), all),
    ensures
        in_order_among(
            opened(added(marked(page, line, changes, code_tag).0, base)),
            all + change_openings(changes),
        ),
    decreases changes.len(),
{
    if changes.len() == 0 {
        assert(all + change_openings(changes) == all);
    } else {
        let before = changes.drop_last();
        let change = changes.last();
        lemma_fits_prefix(line, changes);
        lemma_changes(page, base, line, before, code_tag);
        lemma_changes_open(page, base, line, before, code_tag, all);
        let (half, reached) = marked(page, line, before, code_tag);
        let caught = caught_up(half, line, reached, change.at, code_tag);
        if change.at > reached {
            let piece = chunk(line, reached, change.at, code_tag);
            lemma_write_text(half, base, piece);
            lemma_text_opens_nothing(half, base, piece);
        }
        lemma_edits_open(caught, base, change.edits, all + change_openings(before));
        assert(all + change_openings(before) + openings(change.edits) == all + change_openings(
            changes,
        ));
    }
}

proof fn lemma_finish_opens_nothing(
    page: Page,
    base: Seq<Token>,
    line: Seq<char>,
    reached: int,
    code_tag: bool,
)
    requires
        sound(page, base),
    ensures
        opened(added(finished(page, line, reached, code_tag), base)) == opened(added(page, base)),
{
    let whole = shown(line, code_tag);
    let len = text::byte_len(whole) as int;
    if len > reached {
        lemma_text_opens_nothing(page, base, text::byte_slice(whole, reached, len));
    }
}

proof fn lemma_spans_opened(open: Seq<Seq<char>>, n: int)
    requires
        0 <= n <= open.len(),
    ensures
        opened(open.map_values(|class: Seq<char>| Token::SpanOpen(class)).take(n)) == open.take(n),
    decreases n,
{
    let all = open.map_values(|class: Seq<char>| Token::SpanOpen(class));
    if n > 0 {
        lemma_spans_opened(open, n - 1);
        assert(all.take(n).drop_last() == all.take(n - 1));
        assert(open.take(n) == open.take(n - 1).push(open[n - 1]));
    } else {
        assert(open.take(0) == Seq::<Seq<char>>::empty());
    }
}

proof fn lemma_ends_open_nothing(body: Seq<Token>, n: nat)
    ensures
        opened(body + Seq::new(n, |i: int| Token::SpanClose)) == opened(body),
    decreases n,
{
    let after = body + Seq::new(n, |i: int| Token::SpanClose);
    if n == 0 {
        assert(after == body);
    } else {
        lemma_ends_open_nothing(body, (n - 1) as nat);
        assert(after.drop_last() == body + Seq::new((n - 1) as nat, |i: int| Token::SpanClose));
    }
}

// The laws

/// A line in an element of its own: between its start and its end the spans are
/// opened and closed in order, none is left open, and the text of the line is
/// shown once, in order. White space at the end of the line is left out unless a
/// change lies behind it. Each character stands in the spans that are open after
/// the changes up to it, and no spans are opened but those that were open and
/// those that the changes open, in this order. This holds where every change that
/// closes a span finds one open.
pub proof fn law_code_line(page: Page, line: Seq<char>, changes: Seq<Change>)
    requires
        one_line(line),
        fits(line, changes),
        changes_find_spans(page.open.len() as int, changes),
    ensures
        exists|body: Seq<Token>|
            {
                &&& painted(page, line, Scan::Marks(changes), true).tokens == page.tokens
                    + seq![Token::CodeOpen] + body + seq![Token::CodeClose]
                &&& #[trigger] balanced(body)
                &&& shows(shown_text(body), line, true)
                &&& dress(body) == attire(page.open, line, changes, shown_text(body).len())
                &&& shows_part(shown_text(body), line, changes)
                &&& in_order_among(opened(body), page.open + change_openings(changes))
            },
        painted(page, line, Scan::Marks(changes), true).open.len() == open_after_changes(
            page.open.len() as int,
            changes,
        ),
{
    let begun = written(page, Token::CodeOpen);
    let base = begun.tokens;
    let inner = reopened(begun);
    lemma_reopened(begun, base);
    lemma_changes(inner, base, line, changes, true);
    lemma_reached(inner, line, changes, true);
    let (body, reached) = marked(inner, line, changes, true);
    let first = Seq::<char>::empty();
    assert(shown_text(added(inner, base)) == first);
    assert(first + shown_until(line, reached, true) == shown_until(line, reached, true));
    lemma_finish(body, base, first, line, reached, true);
    let done = finished(body, line, reached, true);
    let closed = all_closed(done);
    lemma_closed(done, base);
    let tokens = added(closed, base);
    let rest = choose|rest: Seq<char>|
        shown_text(added(done, base)) == first + rest && #[trigger] shows(rest, line, true);
    assert(first + rest == rest);
    assert(first + part(line, reached, true) == part(line, reached, true));
    lemma_part(line, changes, reached);
    assert(closed.tokens == base + tokens);
    assert(painted(page, line, Scan::Marks(changes), true).tokens == page.tokens
        + seq![Token::CodeOpen] + tokens + seq![Token::CodeClose]);
    assert(balanced(tokens));
    let none = Seq::<Seq<Seq<char>>>::empty();
    lemma_reopened_dress(begun, base);
    lemma_changes_dress(inner, base, line, changes, true);
    assert(none + attire(page.open, line, changes, shown_until(line, reached, true).len())
        == attire(page.open, line, changes, shown_until(line, reached, true).len()));
    lemma_finish_dress(body, base, none, page.open, line, changes, reached, true);
    lemma_ends_dress(added(done, base), done.open.len());
    assert(tokens == added(done, base) + Seq::new(done.open.len(), |i: int| Token::SpanClose));
    lemma_dress_len(tokens);
    let all = page.open;
    lemma_spans_opened(all, all.len() as int);
    let spans = all.map_values(|class: Seq<char>| Token::SpanOpen(class));
    assert(spans.take(spans.len() as int) == spans);
    assert(all.take(all.len() as int) == all);
    assert(added(inner, base) == spans);
    lemma_among_itself(all);
    lemma_changes_open(inner, base, line, changes, true, all);
    lemma_finish_opens_nothing(body, base, line, reached, true);
    lemma_ends_open_nothing(added(done, base), done.open.len());
    assert(in_order_among(opened(tokens), all + change_openings(changes)));
    assert(none + attire(page.open, line, changes, dress(tokens).len()) == attire(
        page.open,
        line,
        changes,
        dress(tokens).len(),
    ));
}

/// A line that is too long to be highlighted is shown as one piece of text.
pub proof fn law_long_code_line(page: Page, line: Seq<char>)
    ensures
        painted(page, line, Scan::Long, true).tokens == page.tokens + seq![
            Token::CodeOpen,
            Token::Text(text::trimmed_end(line)),
            Token::CodeClose,
        ],
        painted(page, line, Scan::Long, true).open == page.open,
{
    assert(painted(page, line, Scan::Long, true).tokens == page.tokens + seq![
        Token::CodeOpen,
        Token::Text(text::trimmed_end(line)),
        Token::CodeClose,
    ]);
}

/// Whether the spans that a page takes for open are open on it, none was closed
/// that was not, and what was just opened is a span.
pub open spec fn well_open(page: Page) -> bool {
    &&& nested(page.tokens)
    &&& depth(page.tokens) == page.open.len()
    &&& page.fresh ==> page.tokens.len() > 0 && page.tokens.last() is SpanOpen
}

proof fn lemma_well_open_is_sound(page: Page)
    ensures
        well_open(page) == (sound(page, seq![]) && settled(page, seq![])),
        added(page, seq![]) == page.tokens,
{
    assert(added(page, seq![]) == page.tokens);
    assert(page.tokens.take(0) == Seq::<Token>::empty());
}

/// A line without an element of its own: spans are opened and closed in order,
/// and exactly the text of the line is added to what is shown. This holds where
/// every change that closes a span finds one open.
pub proof fn law_bare_line(page: Page, line: Seq<char>, changes: Seq<Change>)
    requires
        well_open(page),
        one_line(line),
        fits(line, changes),
        changes_find_spans(page.open.len() as int, changes),
    ensures
        ({
            let after = painted(page, line, Scan::Marks(changes), false);
            well_open(after) && shown_text(after.tokens) == shown_text(page.tokens) + line
        }),
{
    let base = Seq::<Token>::empty();
    lemma_well_open_is_sound(page);
    lemma_changes(page, base, line, changes, false);
    lemma_reached(page, line, changes, false);
    let (body, reached) = marked(page, line, changes, false);
    let first = shown_text(page.tokens);
    lemma_finish(body, base, first, line, reached, false);
    let done = finished(body, line, reached, false);
    lemma_well_open_is_sound(done);
    let rest = choose|rest: Seq<char>|
        shown_text(added(done, base)) == first + rest && #[trigger] shows(rest, line, false);
}

/// Each character of a line without an element of its own stands in the spans
/// that are open after the changes up to it, where the spans that the page takes
/// for open are those that are open on it. No spans are opened but those that the
/// changes open, in the same order.
pub proof fn law_bare_line_is_dressed(page: Page, line: Seq<char>, changes: Seq<Change>)
    requires
        well_open(page),
        enclosing(page.tokens) == page.open,
        one_line(line),
        fits(line, changes),
        changes_find_spans(page.open.len() as int, changes),
    ensures
        ({
            let after = painted(page, line, Scan::Marks(changes), false);
            &&& enclosing(after.tokens) == after.open
            &&& dress(after.tokens) == dress(page.tokens) + attire(
                page.open,
                line,
                changes,
                line.len(),
            )
            &&& forall|all: Seq<Seq<char>>|
                in_order_among(opened(page.tokens), all) ==> in_order_among(
                    opened(after.tokens),
                    #[trigger] (all + change_openings(changes)),
                )
        }),
{
    let base = Seq::<Token>::empty();
    law_bare_line(page, line, changes);
    lemma_well_open_is_sound(page);
    lemma_changes(page, base, line, changes, false);
    lemma_changes_dress(page, base, line, changes, false);
    lemma_reached(page, line, changes, false);
    let (body, reached) = marked(page, line, changes, false);
    let first = dress(page.tokens);
    lemma_finish_dress(body, base, first, page.open, line, changes, reached, false);
    let done = finished(body, line, reached, false);
    assert(added(done, base) == done.tokens);
    lemma_dress_len(done.tokens);
    lemma_dress_len(page.tokens);
    lemma_finish_opens_nothing(body, base, line, reached, false);
    assert forall|all: Seq<Seq<char>>| in_order_among(
        opened(page.tokens),
        all,
    ) implies in_order_among(
        opened(done.tokens),
        #[trigger] (all + change_openings(changes)),
    ) by {
        lemma_changes_open(page, base, line, changes, false, all);
    }
}

/// Of a line without an element of its own whose changes break off, what stands
/// before the furthest of them is shown.
pub proof fn law_broken_line(page: Page, line: Seq<char>, changes: Seq<Change>)
    requires
        well_open(page),
        one_line(line),
        fits(line, changes),
        changes_find_spans(page.open.len() as int, changes),
    ensures
        exists|n: int|
            {
                &&& 0 <= n <= line.len()
                &&& shown_text(painted(page, line, Scan::Broken(changes), false).tokens)
                    == shown_text(page.tokens) + #[trigger] line.take(n)
                &&& forall|i: int|
                    0 <= i < line.len() ==> (i < n <==> #[trigger] passed(line, i, changes))
            },
{
    let base = Seq::<Token>::empty();
    lemma_well_open_is_sound(page);
    lemma_changes(page, base, line, changes, false);
    lemma_reached(page, line, changes, false);
    let (after, reached) = marked(page, line, changes, false);
    let n = text::chars_before(line, reached);
    text::lemma_head(line, reached);
    assert(added(after, base) == after.tokens);
    assert(shown_until(line, reached, false) == line.take(n));
    assert forall|i: int| 0 <= i < line.len() implies (i < n <==> #[trigger] passed(
        line,
        i,
        changes,
    )) by {
        lemma_passed(line, changes, reached, i);
    }
}

/// The characters of a long line without an element of its own all stand in the
/// spans that are open where it starts.
pub proof fn law_long_bare_line_is_dressed(page: Page, line: Seq<char>)
    requires
        enclosing(page.tokens) == page.open,
    ensures
        ({
            let after = painted(page, line, Scan::Long, false);
            &&& enclosing(after.tokens) == after.open
            &&& after.open == page.open
            &&& opened(after.tokens) == opened(page.tokens)
            &&& dress(after.tokens) == dress(page.tokens) + Seq::new(
                line.len(),
                |i: int| page.open,
            )
        }),
{
    let after = painted(page, line, Scan::Long, false);
    assert(after.tokens.drop_last() == page.tokens);
    assert(Seq::new(line.len(), |i: int| page.open) == Seq::new(
        line.len(),
        |i: int| enclosing(page.tokens),
    ));
}

/// A line without an element of its own that is too long to be highlighted: its
/// text is added, and nothing else.
pub proof fn law_long_bare_line(page: Page, line: Seq<char>)
    requires
        well_open(page),
    ensures
        ({
            let after = painted(page, line, Scan::Long, false);
            well_open(after) && shown_text(after.tokens) == shown_text(page.tokens) + line
        }),
{
    let after = painted(page, line, Scan::Long, false);
    assert(after.tokens.drop_last() == page.tokens);
}

/// Closing the spans that are open leaves none open, and shows nothing.
pub proof fn law_closing_the_page(page: Page)
    requires
        well_open(page),
    ensures
        balanced(all_closed(page).tokens),
        shown_text(all_closed(page).tokens) == shown_text(page.tokens),
        dress(all_closed(page).tokens) == dress(page.tokens),
        opened(all_closed(page).tokens) == opened(page.tokens),
{
    lemma_ends_open_nothing(page.tokens, page.open.len());
    lemma_ends_dress(page.tokens, page.open.len());
    lemma_well_open_is_sound(page);
    lemma_closed(page, seq![]);
    assert(added(all_closed(page), seq![]) == all_closed(page).tokens);
}

/// A line that stands as one piece, without the white space at its end.
pub proof fn lemma_lone_text(line: Seq<char>)
    requires
        one_line(line),
    ensures
        balanced(seq![Token::Text(text::trimmed_end(line))]),
        shows(shown_text(seq![Token::Text(text::trimmed_end(line))]), line, true),
{
    let text = text::trimmed_end(line);
    let lone = seq![Token::Text(text)];
    assert(lone.drop_last() == Seq::<Token>::empty());
    assert(shown_text(lone.drop_last()) + text == text);
    assert(depth(lone.drop_last()) == 0 && nested(lone.drop_last()));
    text::lemma_trimmed_end_is_prefix(line);
    lemma_trim_twice(line);
    lemma_trimmed_has_no_line_feed(line);
}

proof fn lemma_reopened(page: Page, base: Seq<Token>)
    requires
        page.tokens == base,
    ensures
        sound(reopened(page), base),
        settled(reopened(page), base),
        shown_text(added(reopened(page), base)) == Seq::<char>::empty(),
{
    let spans = page.open.map_values(|class: Seq<char>| Token::SpanOpen(class));
    lemma_spans(page.open, page.open.len() as int);
    assert(spans.take(spans.len() as int) == spans);
    assert(added(reopened(page), base) == spans);
    assert(reopened(page).tokens.take(base.len() as int) == base);
}

proof fn lemma_spans(open: Seq<Seq<char>>, n: int)
    requires
        0 <= n <= open.len(),
    ensures
        ({
            let spans = open.map_values(|class: Seq<char>| Token::SpanOpen(class)).take(n);
            nested(spans) && depth(spans) == n && shown_text(spans) == Seq::<char>::empty()
        }),
    decreases n,
{
    let all = open.map_values(|class: Seq<char>| Token::SpanOpen(class));
    if n > 0 {
        lemma_spans(open, n - 1);
        assert(all.take(n).drop_last() == all.take(n - 1));
        assert(shown_text(all.take(n)) == Seq::<char>::empty());
    }
}

proof fn lemma_closed(page: Page, base: Seq<Token>)
    requires
        sound(page, base),
    ensures
        balanced(added(all_closed(page), base)),
        shown_text(added(all_closed(page), base)) == shown_text(added(page, base)),
        all_closed(page).tokens.take(base.len() as int) == base,
        all_closed(page).tokens == base + added(all_closed(page), base),
{
    let body = added(page, base);
    let ends = Seq::new(page.open.len(), |i: int| Token::SpanClose);
    lemma_ends(body, page.open.len(), page.open.len());
    assert(added(all_closed(page), base) == body + ends);
    assert(all_closed(page).tokens.take(base.len() as int) == base);
    assert(all_closed(page).tokens == base + added(all_closed(page), base));
}

proof fn lemma_ends(body: Seq<Token>, open: nat, n: nat)
    requires
        nested(body),
        depth(body) == open,
        n <= open,
    ensures
        ({
            let after = body + Seq::new(n, |i: int| Token::SpanClose);
            nested(after) && depth(after) == open - n && shown_text(after) == shown_text(body)
        }),
    decreases n,
{
    let after = body + Seq::new(n, |i: int| Token::SpanClose);
    if n == 0 {
        assert(after == body);
    } else {
        lemma_ends(body, open, (n - 1) as nat);
        assert(after.drop_last() == body + Seq::new((n - 1) as nat, |i: int| Token::SpanClose));
        assert(shown_text(after) == shown_text(body));
    }
}

}
