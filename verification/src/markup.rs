//! Highlighted source text as HTML: lines in `<code>` elements, and in them
//! `<span>` elements that carry the classes of the scopes.

use vstd::prelude::*;

use crate::{escape, text};

verus! {

/// The longest line, in bytes, that is highlighted.
pub const LONGEST_LINE: usize = 2048;

/// A piece of the page.
pub enum Token {
    /// The start of a line.
    CodeOpen,
    /// The end of a line.
    CodeClose,
    /// The start of a span with the given classes.
    SpanOpen(Seq<char>),
    /// The end of a span.
    SpanClose,
    /// Text to be shown.
    Text(Seq<char>),
}

/// The HTML of a piece.
pub open spec fn token_markup(token: Token) -> Seq<char> {
    match token {
        Token::CodeOpen => "<code>"@,
        Token::CodeClose => "</code>\n"@,
        Token::SpanOpen(class) => "<span class=\""@ + class + "\">"@,
        Token::SpanClose => "</span>"@,
        Token::Text(text) => escape::escaped(text),
    }
}

/// The HTML of the pieces, one after the other.
pub open spec fn markup(tokens: Seq<Token>) -> Seq<char>
    decreases tokens.len(),
{
    if tokens.len() == 0 {
        seq![]
    } else {
        markup(tokens.drop_last()) + token_markup(tokens.last())
    }
}

/// Opening or closing a span.
pub enum Edit {
    Open(Seq<char>),
    Close,
}

/// Edits that take effect at a byte offset of a line.
pub struct Change {
    pub at: int,
    pub edits: Seq<Edit>,
}

/// What is known of a line before it is painted.
pub enum Scan {
    /// It is too long to be highlighted.
    Long,
    /// It could not be parsed.
    Unreadable,
    /// It was parsed, with these changes.
    Marks(Seq<Change>),
    /// It was parsed, but the last of these changes could not be carried out.
    Broken(Seq<Change>),
}

/// A page under construction.
pub struct Page {
    /// What stands on it.
    pub tokens: Seq<Token>,
    /// The classes of the spans that are open, the innermost last.
    pub open: Seq<Seq<char>>,
    /// Whether the last piece starts a span that was opened where the page ends.
    pub fresh: bool,
}

/// A page with nothing on it.
pub open spec fn blank() -> Page {
    Page { tokens: seq![], open: seq![], fresh: false }
}

/// The page with one more piece.
pub open spec fn written(page: Page, token: Token) -> Page {
    Page { tokens: page.tokens.push(token), fresh: false, ..page }
}

/// The page after an edit. A span that is closed where it was opened is taken
/// back.
pub open spec fn edited(page: Page, edit: Edit) -> Page {
    match edit {
        Edit::Open(class) => Page {
            tokens: page.tokens.push(Token::SpanOpen(class)),
            open: page.open.push(class),
            fresh: true,
        },
        Edit::Close => Page {
            tokens: if page.fresh {
                page.tokens.drop_last()
            } else {
                page.tokens.push(Token::SpanClose)
            },
            open: if page.open.len() == 0 {
                page.open
            } else {
                page.open.drop_last()
            },
            fresh: false,
        },
    }
}

/// The page after several edits.
pub open spec fn all_edited(page: Page, edits: Seq<Edit>) -> Page
    decreases edits.len(),
{
    if edits.len() == 0 {
        page
    } else {
        edited(all_edited(page, edits.drop_last()), edits.last())
    }
}

/// The text between two offsets, as it is shown. In a `<code>` line the line
/// feed is left out, since the end of the line stands for it.
pub open spec fn chunk(line: Seq<char>, from: int, to: int, code_tag: bool) -> Seq<char> {
    let text = text::byte_slice(line, from, to);
    if code_tag {
        text::without_line_feeds(text)
    } else {
        text
    }
}

/// A line, as far as what follows its last change is shown.
pub open spec fn shown(line: Seq<char>, code_tag: bool) -> Seq<char> {
    if code_tag {
        text::trimmed_end(line)
    } else {
        line
    }
}

/// The page with the text up to an offset on it, where the text up to an
/// earlier offset stood there already.
pub open spec fn caught_up(
    page: Page,
    line: Seq<char>,
    from: int,
    to: int,
    code_tag: bool,
) -> Page {
    if to > from {
        written(page, Token::Text(chunk(line, from, to, code_tag)))
    } else {
        page
    }
}

/// The page after the changes of a line, and the offset that was reached.
pub open spec fn marked(page: Page, line: Seq<char>, changes: Seq<Change>, code_tag: bool) -> (
    Page,
    int,
)
    decreases changes.len(),
{
    if changes.len() == 0 {
        (page, 0)
    } else {
        let (before, reached) = marked(page, line, changes.drop_last(), code_tag);
        let change = changes.last();
        (
            all_edited(caught_up(before, line, reached, change.at, code_tag), change.edits),
            if change.at > reached {
                change.at
            } else {
                reached
            },
        )
    }
}

/// The page with every open span opened once more.
pub open spec fn reopened(page: Page) -> Page {
    Page {
        tokens: page.tokens + page.open.map_values(|class: Seq<char>| Token::SpanOpen(class)),
        fresh: false,
        ..page
    }
}

/// The page with an end for every open span.
pub open spec fn all_closed(page: Page) -> Page {
    Page {
        tokens: page.tokens + Seq::new(page.open.len(), |i: int| Token::SpanClose),
        fresh: false,
        ..page
    }
}

/// The page with what is left of a line after its last change.
pub open spec fn finished(page: Page, line: Seq<char>, reached: int, code_tag: bool) -> Page {
    let text = shown(line, code_tag);
    if text::byte_len(text) > reached {
        written(page, Token::Text(text::byte_slice(text, reached, text::byte_len(text) as int)))
    } else {
        page
    }
}

/// The page after a line.
///
/// With `code_tag` the line is an element of its own: the spans that are open
/// are opened in it again, and closed at its end.
pub open spec fn painted(page: Page, line: Seq<char>, scan: Scan, code_tag: bool) -> Page {
    let begun = if code_tag {
        written(page, Token::CodeOpen)
    } else {
        page
    };
    let inner = if code_tag {
        reopened(begun)
    } else {
        begun
    };
    match scan {
        Scan::Long => {
            let body = written(begun, Token::Text(shown(line, code_tag)));
            if code_tag {
                written(body, Token::CodeClose)
            } else {
                body
            }
        },
        Scan::Unreadable => begun,
        Scan::Broken(changes) => marked(inner, line, changes, code_tag).0,
        Scan::Marks(changes) => {
            let (body, reached) = marked(inner, line, changes, code_tag);
            let body = finished(body, line, reached, code_tag);
            if code_tag {
                written(all_closed(body), Token::CodeClose)
            } else {
                body
            }
        },
    }
}

/// Whether the offset of a change lies beyond those of all changes before it.
pub open spec fn advances(changes: Seq<Change>, k: int) -> bool {
    changes[k].at > 0 && forall|j: int| 0 <= j < k ==> (#[trigger] changes[j]).at < changes[k].at
}

/// Whether the line can be cut wherever its changes cut it.
pub open spec fn fits(line: Seq<char>, changes: Seq<Change>) -> bool {
    forall|k: int|
        0 <= k < changes.len() && #[trigger] advances(changes, k) ==> text::cuttable(
            line,
            changes[k].at,
        )
}

/// Whether the changes of a scan, if it has any, fit the line.
pub open spec fn scan_fits(line: Seq<char>, scan: Scan) -> bool {
    match scan {
        Scan::Long => true,
        Scan::Unreadable => true,
        Scan::Marks(changes) => fits(line, changes),
        Scan::Broken(changes) => fits(line, changes),
    }
}

// The same, as values

/// Opening a span with the given classes, or closing the innermost one.
pub enum SpanEdit {
    Open(String),
    Close,
}

impl View for SpanEdit {
    type V = Edit;

    open spec fn view(&self) -> Edit {
        match self {
            SpanEdit::Open(class) => Edit::Open(class@),
            SpanEdit::Close => Edit::Close,
        }
    }
}

/// The edits to carry out at a byte offset of a line.
pub struct Mark {
    pub at: usize,
    pub edits: Vec<SpanEdit>,
}

impl View for Mark {
    type V = Change;

    open spec fn view(&self) -> Change {
        Change { at: self.at as int, edits: edit_views(self.edits@) }
    }
}

/// The edits that the values stand for.
pub open spec fn edit_views(edits: Seq<SpanEdit>) -> Seq<Edit> {
    edits.map_values(|edit: SpanEdit| edit@)
}

/// The changes that the marks stand for.
pub open spec fn mark_views(marks: Seq<Mark>) -> Seq<Change> {
    marks.map_values(|mark: Mark| mark@)
}

/// What is known of a line before it is painted.
pub enum Reading {
    /// It is too long to be highlighted.
    Long,
    /// It could not be parsed.
    Unreadable,
    /// It was parsed, with these marks.
    Marks(Vec<Mark>),
    /// It was parsed, but the last of these marks could not be carried out.
    Broken(Vec<Mark>),
}

impl View for Reading {
    type V = Scan;

    open spec fn view(&self) -> Scan {
        match self {
            Reading::Long => Scan::Long,
            Reading::Unreadable => Scan::Unreadable,
            Reading::Marks(marks) => Scan::Marks(mark_views(marks@)),
            Reading::Broken(marks) => Scan::Broken(mark_views(marks@)),
        }
    }
}

/// Writes highlighted lines.
pub struct Painter {
    out: String,
    open: Vec<String>,
    span_start: usize,
    span_fresh: bool,
    tokens: Ghost<Seq<Token>>,
}

impl View for Painter {
    type V = Page;

    closed spec fn view(&self) -> Page {
        Page {
            tokens: self.tokens@,
            open: text::views(self.open@),
            fresh: self.span_fresh,
        }
    }
}

proof fn lemma_markup_push(tokens: Seq<Token>, token: Token)
    ensures
        markup(tokens.push(token)) == markup(tokens) + token_markup(token),
{
    assert(tokens.push(token).drop_last() == tokens);
}

impl Painter {
    /// What holds of every painter: its HTML is that of its page.
    pub closed spec fn wf(&self) -> bool {
        &&& self.out@ == markup(self.tokens@)
        &&& self.span_fresh ==> {
            &&& self.tokens@.len() > 0
            &&& self.span_start == text::byte_len(markup(self.tokens@.drop_last()))
        }
    }

    /// A painter with a blank page.
    pub fn new() -> (painter: Painter)
        ensures
            painter.wf(),
            painter@ == blank(),
    {
        let painter = Painter {
            out: String::new(),
            open: Vec::new(),
            span_start: 0,
            span_fresh: false,
            tokens: Ghost(Seq::empty()),
        };
        assert(painter@.open == blank().open);
        painter
    }

    /// The HTML of the page.
    pub fn html(&self) -> (html: &str)
        requires
            self.wf(),
        ensures
            html@ == markup(self@.tokens),
    {
        self.out.as_str()
    }

    fn put(&mut self, html: &str, token: Ghost<Token>)
        requires
            old(self).wf(),
            html@ == token_markup(token@),
        ensures
            final(self).wf(),
            final(self)@ == written(old(self)@, token@),
    {
        proof {
            lemma_markup_push(self.tokens@, token@);
        }
        self.out.append(html);
        self.tokens = Ghost(self.tokens@.push(token@));
        self.span_fresh = false;
    }

    fn put_text(&mut self, text: &str)
        requires
            old(self).wf(),
        ensures
            final(self).wf(),
            final(self)@ == written(old(self)@, Token::Text(text@)),
    {
        let html = escape::Escape(text).to_string();
        self.put(html.as_str(), Ghost(Token::Text(text@)));
    }

    fn put_span(&mut self, class: &str)
        requires
            old(self).wf(),
        ensures
            final(self).wf(),
            final(self)@ == written(old(self)@, Token::SpanOpen(class@)),
    {
        let mut html = String::new();
        html.append("<span class=\"");
        html.append(class);
        html.append("\">");
        assert(html@ == token_markup(Token::SpanOpen(class@)));
        self.put(html.as_str(), Ghost(Token::SpanOpen(class@)));
    }

    fn edit(&mut self, edit: &SpanEdit)
        requires
            old(self).wf(),
        ensures
            final(self).wf(),
            final(self)@ == edited(old(self)@, edit@),
    {
        let ghost before = self@;
        match edit {
            SpanEdit::Open(class) => {
                let reached: usize = self.out.as_str().as_bytes().len();
                self.put_span(class.as_str());
                let ghost old_open = self.open@;
                self.open.push(class.clone());
                assert(text::views(self.open@) == text::views(old_open).push(class@));
                assert(self.tokens@.drop_last() == before.tokens);
                self.span_start = reached;
                self.span_fresh = true;
            },
            SpanEdit::Close => {
                let ghost old_open = self.open@;
                let _ = self.open.pop();
                assert(old_open.len() > 0 ==> text::views(self.open@) == text::views(
                    old_open,
                ).drop_last());
                if self.span_fresh {
                    let ghost kept = markup(self.tokens@.drop_last());
                    proof {
                        assert(self.out@.take(kept.len() as int) == kept);
                        text::lemma_prefix_bytes(self.out@, kept.len() as int);
                    }
                    self.out.truncate(self.span_start);
                    proof {
                        text::lemma_encode_injective(self.out@, kept);
                    }
                    self.tokens = Ghost(self.tokens@.drop_last());
                    self.span_fresh = false;
                } else {
                    self.put("</span>", Ghost(Token::SpanClose));
                }
            },
        }
    }

    fn carry_out(&mut self, edits: &Vec<SpanEdit>)
        requires
            old(self).wf(),
        ensures
            final(self).wf(),
            final(self)@ == all_edited(old(self)@, edit_views(edits@)),
    {
        let ghost before = self@;
        for k in 0..edits.len()
            invariant
                self.wf(),
                self@ == all_edited(before, edit_views(edits@).take(k as int)),
        {
            assert(edit_views(edits@).take(k + 1).drop_last() == edit_views(edits@).take(k as int));
            self.edit(&edits[k]);
        }
        assert(edit_views(edits@).take(edits@.len() as int) == edit_views(edits@));
    }

    /// Carries out the marks of a line and tells how far they reach.
    fn carry_out_marks(&mut self, line: &str, marks: &Vec<Mark>, code_tag: bool) -> (reached: usize)
        requires
            old(self).wf(),
            fits(line@, mark_views(marks@)),
        ensures
            final(self).wf(),
            (final(self)@, reached as int) == marked(
                old(self)@,
                line@,
                mark_views(marks@),
                code_tag,
            ),
            text::cuttable(line@, reached as int),
    {
        let ghost before = self@;
        let ghost changes = mark_views(marks@);
        let mut reached: usize = 0;
        proof {
            vstd::utf8::encode_utf8_valid_utf8(line@);
        }
        for k in 0..marks.len()
            invariant
                self.wf(),
                changes == mark_views(marks@),
                fits(line@, changes),
                (self@, reached as int) == marked(before, line@, changes.take(k as int), code_tag),
                text::cuttable(line@, reached as int),
                forall|j: int| 0 <= j < k ==> (#[trigger] changes[j]).at <= reached,
        {
            assert(changes.take(k + 1).drop_last() == changes.take(k as int));
            let mark = &marks[k];
            assert(mark@ == changes[k as int]);
            if mark.at > reached {
                assert(advances(changes, k as int));
                let text = text::slice(line, reached, mark.at);
                let text = if code_tag {
                    text::trim_line_feeds(text)
                } else {
                    text
                };
                self.put_text(text);
                reached = mark.at;
            }
            self.carry_out(&mark.edits);
        }
        assert(changes.take(changes.len() as int) == changes);
        reached
    }

    fn reopen(&mut self)
        requires
            old(self).wf(),
        ensures
            final(self).wf(),
            final(self)@ == reopened(old(self)@),
    {
        let ghost before = self@;
        let ghost spans = before.open.map_values(|class: Seq<char>| Token::SpanOpen(class));
        assert(before.tokens + spans.take(0) == before.tokens);
        self.span_fresh = false;
        let open: Vec<String> = self.open.clone();
        assert(forall|k: int| 0 <= k < open@.len() ==> open@[k]@ == before.open[k]);
        for k in 0..open.len()
            invariant
                self.wf(),
                open@.len() == before.open.len(),
                forall|k: int| 0 <= k < open@.len() ==> (#[trigger] open@[k])@ == before.open[k],
                spans == before.open.map_values(|class: Seq<char>| Token::SpanOpen(class)),
                self@ == (Page {
                    tokens: before.tokens + spans.take(k as int),
                    fresh: false,
                    ..before
                }),
        {
            assert(before.tokens + spans.take(k + 1) == (before.tokens + spans.take(k as int)).push(
                spans[k as int],
            ));
            self.put_span(open[k].as_str());
        }
        assert(spans.take(spans.len() as int) == spans);
    }

    fn close_all(&mut self)
        requires
            old(self).wf(),
        ensures
            final(self).wf(),
            final(self)@ == all_closed(old(self)@),
    {
        let ghost before = self@;
        let count: usize = self.open.len();
        assert(before.tokens + Seq::new(0, |i: int| Token::SpanClose) == before.tokens);
        self.span_fresh = false;
        for k in 0..count
            invariant
                self.wf(),
                self@ == (Page {
                    tokens: before.tokens + Seq::new(k as nat, |i: int| Token::SpanClose),
                    fresh: false,
                    ..before
                }),
        {
            assert(before.tokens + Seq::new((k + 1) as nat, |i: int| Token::SpanClose) == (
            before.tokens + Seq::new(k as nat, |i: int| Token::SpanClose)).push(Token::SpanClose));
            self.put("</span>", Ghost(Token::SpanClose));
        }
    }

    fn finish(&mut self, line: &str, reached: usize, code_tag: bool)
        requires
            old(self).wf(),
            text::cuttable(line@, reached as int),
        ensures
            final(self).wf(),
            final(self)@ == finished(old(self)@, line@, reached as int, code_tag),
    {
        let text = if code_tag {
            text::trim_end(line)
        } else {
            line
        };
        let len: usize = text.as_bytes().len();
        if len > reached {
            proof {
                text::lemma_trimmed_end_is_prefix(line@);
                if code_tag {
                    text::lemma_cut_prefix(line@, text@.len() as int, reached as int);
                }
                vstd::utf8::encode_utf8_valid_utf8(text@);
                vstd::utf8::is_char_boundary_start_end_of_seq(vstd::utf8::encode_utf8(text@));
            }
            self.put_text(text::slice(text, reached, len));
        }
    }

    /// Paints a line, given what is known of it. Whether the whole line could
    /// be painted is told.
    pub fn paint_line(&mut self, line: &str, reading: &Reading, code_tag: bool) -> (whole: bool)
        requires
            old(self).wf(),
            scan_fits(line@, reading@),
        ensures
            final(self).wf(),
            final(self)@ == painted(old(self)@, line@, reading@, code_tag),
            whole == (reading is Long || reading is Marks),
    {
        if code_tag {
            self.put("<code>", Ghost(Token::CodeOpen));
        }
        match reading {
            Reading::Long => {
                let text = if code_tag {
                    text::trim_end(line)
                } else {
                    line
                };
                self.put_text(text);
                if code_tag {
                    self.put("</code>\n", Ghost(Token::CodeClose));
                }
                true
            },
            Reading::Unreadable => false,
            Reading::Broken(marks) => {
                if code_tag {
                    self.reopen();
                }
                let _ = self.carry_out_marks(line, marks, code_tag);
                false
            },
            Reading::Marks(marks) => {
                if code_tag {
                    self.reopen();
                }
                let reached: usize = self.carry_out_marks(line, marks, code_tag);
                self.finish(line, reached, code_tag);
                if code_tag {
                    self.close_all();
                    self.put("</code>\n", Ghost(Token::CodeClose));
                }
                true
            },
        }
    }

    /// Ends a page whose lines are no elements: the spans that are still open
    /// are closed.
    pub fn end(&mut self)
        requires
            old(self).wf(),
        ensures
            final(self).wf(),
            final(self)@ == all_closed(old(self)@),
    {
        self.close_all();
    }
}

// The laws

/// HTML without its tags, and whether it ends inside of one.
pub open spec fn outside_tags(html: Seq<char>) -> (Seq<char>, bool)
    decreases html.len(),
{
    if html.len() == 0 {
        (seq![], false)
    } else {
        let (before, inside) = outside_tags(html.drop_last());
        let c = html.last();
        if inside {
            (before, c != '>')
        } else if c == '<' {
            (before, true)
        } else {
            (before.push(c), false)
        }
    }
}

/// The tags of HTML in order, without their brackets.
pub open spec fn tags(html: Seq<char>) -> Seq<Seq<char>>
    decreases html.len(),
{
    if html.len() == 0 {
        seq![]
    } else {
        let before = tags(html.drop_last());
        let (_, inside) = outside_tags(html.drop_last());
        let c = html.last();
        if inside {
            if c == '>' {
                before
            } else {
                before.drop_last().push(before.last().push(c))
            }
        } else if c == '<' {
            before.push(seq![])
        } else {
            before
        }
    }
}

/// What a reader sees of the pieces: their texts, and a line feed where an
/// element ends.
pub open spec fn visible(tokens: Seq<Token>) -> Seq<char>
    decreases tokens.len(),
{
    if tokens.len() == 0 {
        seq![]
    } else {
        visible(tokens.drop_last()) + match tokens.last() {
            Token::Text(text) => text,
            Token::CodeClose => seq!['\n'],
            _ => seq![],
        }
    }
}

/// The tags of the pieces in order.
pub open spec fn token_tags(tokens: Seq<Token>) -> Seq<Seq<char>>
    decreases tokens.len(),
{
    if tokens.len() == 0 {
        seq![]
    } else {
        let before = token_tags(tokens.drop_last());
        match tokens.last() {
            Token::CodeOpen => before.push("code"@),
            Token::CodeClose => before.push("/code"@),
            Token::SpanOpen(class) => before.push("span class=\""@ + class + "\""@),
            Token::SpanClose => before.push("/span"@),
            Token::Text(_) => before,
        }
    }
}

proof fn lemma_text_outside(html: Seq<char>, text: Seq<char>)
    requires
        !outside_tags(html).1,
        !text.contains('<'),
    ensures
        outside_tags(html + text) == (outside_tags(html).0 + text, false),
        tags(html + text) == tags(html),
    decreases text.len(),
{
    if text.len() == 0 {
        assert(html + text == html);
        assert(outside_tags(html).0 + text == outside_tags(html).0);
    } else {
        let before = text.drop_last();
        assert forall|i: int| 0 <= i < before.len() implies before[i] != '<' by {
            assert(text.contains(text[i]));
        }
        assert(text.contains(text.last()));
        lemma_text_outside(html, before);
        assert((html + text).drop_last() == html + before);
        assert((outside_tags(html).0 + before).push(text.last()) == outside_tags(html).0 + text);
    }
}

proof fn lemma_inside_tag(html: Seq<char>, tag: Seq<char>)
    requires
        !outside_tags(html).1,
        !tag.contains('>'),
    ensures
        outside_tags(html.push('<') + tag) == (outside_tags(html).0, true),
        tags(html.push('<') + tag) == tags(html).push(tag),
    decreases tag.len(),
{
    let start = html.push('<');
    if tag.len() == 0 {
        assert(start + tag == start);
        assert(start.drop_last() == html);
        assert(tag == Seq::<char>::empty());
    } else {
        let before = tag.drop_last();
        assert forall|i: int| 0 <= i < before.len() implies before[i] != '>' by {
            assert(tag.contains(tag[i]));
        }
        assert(tag.contains(tag.last()));
        lemma_inside_tag(html, before);
        assert((start + tag).drop_last() == start + before);
        assert(tags(start + before).last() == before);
        assert(before.push(tag.last()) == tag);
        assert(tags(start + before).drop_last() == tags(html));
    }
}

proof fn lemma_whole_tag(html: Seq<char>, tag: Seq<char>)
    requires
        !outside_tags(html).1,
        !tag.contains('>'),
    ensures
        outside_tags(html + (seq!['<'] + tag + seq!['>'])) == (outside_tags(html).0, false),
        tags(html + (seq!['<'] + tag + seq!['>'])) == tags(html).push(tag),
{
    lemma_inside_tag(html, tag);
    let whole = html + (seq!['<'] + tag + seq!['>']);
    assert(whole.drop_last() == html.push('<') + tag);
}

/// The HTML of pieces can be read back: without its tags it is the HTML form of
/// the texts, with a line feed at the end of each element, and its tags are those
/// of the pieces, in order. This holds where no class could end a tag.
pub proof fn law_html_is_read_back(tokens: Seq<Token>)
    requires
        forall|k: int|
            0 <= k < tokens.len() ==> ((#[trigger] tokens[k]) matches Token::SpanOpen(class)
                ==> !class.contains('>')),
    ensures
        outside_tags(markup(tokens)) == (escape::escaped(visible(tokens)), false),
        escape::unescaped(outside_tags(markup(tokens)).0) == visible(tokens),
        tags(markup(tokens)) == token_tags(tokens),
    decreases tokens.len(),
{
    if tokens.len() > 0 {
        let before = tokens.drop_last();
        let html = markup(before);
        let seen = visible(before);
        assert(forall|k: int| 0 <= k < before.len() ==> before[k] == tokens[k]);
        law_html_is_read_back(before);
        reveal_strlit("<code>");
        reveal_strlit("</code>\n");
        reveal_strlit("<span class=\"");
        reveal_strlit("\">");
        reveal_strlit("</span>");
        reveal_strlit("code");
        reveal_strlit("/code");
        reveal_strlit("span class=\"");
        reveal_strlit("\"");
        reveal_strlit("/span");
        match tokens.last() {
            Token::CodeOpen => {
                assert("<code>"@ == seq!['<'] + "code"@ + seq!['>']);
                lemma_whole_tag(html, "code"@);
                assert(visible(tokens) == seen);
            },
            Token::CodeClose => {
                let tag = seq!['<'] + "/code"@ + seq!['>'];
                lemma_whole_tag(html, "/code"@);
                lemma_text_outside(html + tag, seq!['\n']);
                assert("</code>\n"@ == tag + seq!['\n']);
                assert(html + "</code>\n"@ == html + tag + seq!['\n']);
                escape::law_escape_by_parts(seen, seq!['\n']);
                assert(seq!['\n'].drop_last() == Seq::<char>::empty());
                assert(escape::escaped(seq!['\n'].drop_last()) + seq!['\n'] == seq!['\n']);
                assert(escape::escaped(seq!['\n']) == seq!['\n']);
            },
            Token::SpanOpen(class) => {
                assert(tokens[tokens.len() - 1] == tokens.last());
                let tag = "span class=\""@ + class + "\""@;
                assert forall|i: int| 0 <= i < tag.len() implies tag[i] != '>' by {
                    if 12 <= i < 12 + class.len() {
                        assert(class.contains(class[i - 12]));
                    }
                }
                assert("<span class=\""@ + class + "\">"@ == seq!['<'] + tag + seq!['>']);
                lemma_whole_tag(html, tag);
                assert(visible(tokens) == seen);
            },
            Token::SpanClose => {
                assert("</span>"@ == seq!['<'] + "/span"@ + seq!['>']);
                lemma_whole_tag(html, "/span"@);
                assert(visible(tokens) == seen);
            },
            Token::Text(text) => {
                escape::law_escaped_text_is_inert(text);
                assert forall|i: int| 0 <= i < escape::escaped(text).len() implies escape::escaped(
                    text,
                )[i] != '<' by {
                    assert(escape::inert(escape::escaped(text)[i]));
                }
                lemma_text_outside(html, escape::escaped(text));
                escape::law_escape_by_parts(seen, text);
            },
        }
    }
    escape::law_unescape_escape(visible(tokens));
}

}
