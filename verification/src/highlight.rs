//! Highlighting source text: each line is parsed, its changes of scope become
//! spans, and the spans are painted.

use syntect::parsing::{ParseState, Scope, ScopeStack, SyntaxReference, SyntaxSet};
use vstd::prelude::*;

use crate::{markup, page_laws, syntax, text};
use crate::markup::{Change, Edit, Mark, Page, Painter, Reading, Scan, SpanEdit, Token};
use crate::syntax::{ScopeOp, ScopeStep, Scopes};

verus! {

/// Why text could not be highlighted to its end.
#[derive(Clone, Copy, Debug, PartialEq, Eq, Structural)]
pub enum FormatError {
    /// A line could not be parsed.
    Parse,
    /// Scopes were to be restored, and none had been set aside.
    Scope,
    /// The parser named an offset at which the line cannot be cut.
    Offset,
}

/// The spans that a step opens or closes.
pub open spec fn step_edit(step: ScopeStep) -> Edit {
    match step {
        ScopeStep::Push(scope) => Edit::Open(syntax::classes(scope)),
        ScopeStep::Pop => Edit::Close,
    }
}

/// The edits for the steps, in order.
pub open spec fn step_edits(steps: Seq<ScopeStep>) -> Seq<Edit> {
    steps.map_values(|step: ScopeStep| step_edit(step))
}

/// How far the changes of a line were carried out.
pub struct Run {
    /// The edits that they amount to.
    pub changes: Seq<Change>,
    /// The scopes after them.
    pub scopes: Scopes,
    /// Whether the last one could not be carried out.
    pub broken: bool,
}

/// Carries out the changes of a line, up to one that cannot be carried out.
pub open spec fn run(scopes: Scopes, ops: Seq<(usize, ScopeOp)>) -> Run
    decreases ops.len(),
{
    if ops.len() == 0 {
        Run { changes: seq![], scopes, broken: false }
    } else {
        let before = run(scopes, ops.drop_last());
        let (at, op) = ops.last();
        if before.broken {
            before
        } else {
            match syntax::changed(before.scopes, op) {
                Some((after, steps)) => Run {
                    changes: before.changes.push(
                        Change { at: at as int, edits: step_edits(steps) },
                    ),
                    scopes: after,
                    broken: false,
                },
                None => Run {
                    changes: before.changes.push(Change { at: at as int, edits: seq![] }),
                    scopes: before.scopes,
                    broken: true,
                },
            }
        }
    }
}

/// Where the work on a text stands.
pub struct Work {
    /// The parser.
    pub state: ParseState,
    /// The scopes that hold.
    pub scopes: Scopes,
    /// What has been painted.
    pub page: Page,
    /// What ended the work early.
    pub failure: Option<FormatError>,
}

/// The work on a text before its first line.
pub open spec fn begun(syntax: SyntaxReference) -> Work {
    Work {
        state: syntax::start_state(syntax),
        scopes: Scopes { holding: seq![], aside: seq![] },
        page: markup::blank(),
        failure: None,
    }
}

/// What parsing tells of a line. A line that is too long is not parsed.
pub open spec fn scan(
    state: ParseState,
    scopes: Scopes,
    line: Seq<char>,
    set: SyntaxSet,
) -> Scan {
    if text::byte_len(line) > markup::LONGEST_LINE {
        Scan::Long
    } else {
        match syntax::parsed(state, line, set).0 {
            None => Scan::Unreadable,
            Some(ops) => {
                let done = run(scopes, ops);
                if done.broken {
                    Scan::Broken(done.changes)
                } else {
                    Scan::Marks(done.changes)
                }
            },
        }
    }
}

/// What ends the work at a line, given what parsing tells of it.
pub open spec fn failure(line: Seq<char>, scan: Scan) -> Option<FormatError> {
    match scan {
        Scan::Long => None,
        Scan::Unreadable => Some(FormatError::Parse),
        Scan::Marks(changes) => if markup::fits(line, changes) {
            None
        } else {
            Some(FormatError::Offset)
        },
        Scan::Broken(changes) => if markup::fits(line, changes) {
            Some(FormatError::Scope)
        } else {
            Some(FormatError::Offset)
        },
    }
}

/// The work after one more line. A line that cannot be cut where the parser
/// wants it cut is left out.
pub open spec fn advanced(work: Work, line: Seq<char>, set: SyntaxSet, code_tag: bool) -> Work {
    let scan = scan(work.state, work.scopes, line, set);
    let painted = if markup::scan_fits(line, scan) {
        scan
    } else {
        Scan::Unreadable
    };
    Work {
        state: if scan is Long {
            work.state
        } else {
            syntax::parsed(work.state, line, set).1
        },
        scopes: match syntax::parsed(work.state, line, set).0 {
            Some(ops) if !(scan is Long) => run(work.scopes, ops).scopes,
            _ => work.scopes,
        },
        page: markup::painted(work.page, line, painted, code_tag),
        failure: failure(line, scan),
    }
}

/// The work after the given lines, or up to the one that ended it.
pub open spec fn worked(
    lines: Seq<Seq<char>>,
    syntax: SyntaxReference,
    set: SyntaxSet,
    code_tag: bool,
) -> Work
    decreases lines.len(),
{
    if lines.len() == 0 {
        begun(syntax)
    } else {
        let before = worked(lines.drop_last(), syntax, set, code_tag);
        if before.failure is Some {
            before
        } else {
            advanced(before, lines.last(), set, code_tag)
        }
    }
}

/// The work on a whole text, for files with the given extension.
pub open spec fn text_worked(
    content: Seq<char>,
    extension: Seq<char>,
    set: SyntaxSet,
    code_tag: bool,
) -> Work {
    worked(text::lines(content), syntax::syntax_for(set, extension), set, code_tag)
}

/// The page for a whole text. Where the lines are no elements, the spans that
/// are open at the end of the text are closed there.
pub open spec fn text_page(
    content: Seq<char>,
    extension: Seq<char>,
    set: SyntaxSet,
    code_tag: bool,
) -> Page {
    let work = text_worked(content, extension, set, code_tag);
    if work.failure is None && !code_tag {
        markup::all_closed(work.page)
    } else {
        work.page
    }
}

/// The edits for the steps, with the classes of each scope spelled out.
fn edits_of(steps: &Vec<ScopeStep>) -> (edits: Vec<SpanEdit>)
    ensures
        markup::edit_views(edits@) == step_edits(steps@),
{
    let mut edits: Vec<SpanEdit> = Vec::new();
    for k in 0..steps.len()
        invariant
            markup::edit_views(edits@) == step_edits(steps@).take(k as int),
    {
        let ghost before = edits@;
        let edit = match &steps[k] {
            ScopeStep::Push(scope) => {
                let mut class = String::new();
                syntax::scope_to_classes(&mut class, *scope);
                SpanEdit::Open(class)
            },
            ScopeStep::Pop => SpanEdit::Close,
        };
        edits.push(edit);
        assert(markup::edit_views(edits@) == markup::edit_views(before).push(edit@));
        assert(step_edits(steps@).take(k + 1) == step_edits(steps@).take(k as int).push(
            step_edits(steps@)[k as int],
        ));
    }
    assert(step_edits(steps@).take(steps@.len() as int) == step_edits(steps@));
    edits
}

/// Carries out the changes of a line on the scopes that hold. Whether all could
/// be carried out is told.
fn run_ops(stack: &mut ScopeStack, ops: &Vec<(usize, ScopeOp)>) -> (r: (Vec<Mark>, bool))
    ensures
        ({
            let done = run(syntax::stack_view(*old(stack)), ops@);
            &&& markup::mark_views(r.0@) == done.changes
            &&& r.1 == !done.broken
            &&& syntax::stack_view(*final(stack)) == done.scopes
        }),
{
    let ghost before = syntax::stack_view(*stack);
    let mut marks: Vec<Mark> = Vec::new();
    let mut whole = true;
    for k in 0..ops.len()
        invariant
            ({
                let done = run(before, ops@.take(k as int));
                &&& markup::mark_views(marks@) == done.changes
                &&& whole == !done.broken
                &&& syntax::stack_view(*stack) == done.scopes
            }),
    {
        assert(ops@.take(k + 1).drop_last() == ops@.take(k as int));
        if whole {
            let ghost old_marks = marks@;
            let mark = match syntax::apply(stack, &ops[k].1) {
                Ok(steps) => Mark { at: ops[k].0, edits: edits_of(&steps) },
                Err(_) => {
                    whole = false;
                    let none: Vec<SpanEdit> = Vec::new();
                    assert(markup::edit_views(none@) == Seq::<Edit>::empty());
                    Mark { at: ops[k].0, edits: none }
                },
            };
            marks.push(mark);
            assert(markup::mark_views(marks@) == markup::mark_views(old_marks).push(mark@));
        }
    }
    assert(ops@.take(ops@.len() as int) == ops@);
    (marks, whole)
}

/// Whether a line can be cut wherever the marks cut it.
fn marks_fit(line: &str, marks: &Vec<Mark>) -> (r: bool)
    ensures
        r == markup::fits(line@, markup::mark_views(marks@)),
{
    let ghost changes = markup::mark_views(marks@);
    let mut reached: usize = 0;
    for k in 0..marks.len()
        invariant
            changes == markup::mark_views(marks@),
            forall|j: int|
                0 <= j < k && #[trigger] markup::advances(changes, j) ==> text::cuttable(
                    line@,
                    changes[j].at,
                ),
            forall|j: int| 0 <= j < k ==> (#[trigger] changes[j]).at <= reached,
            reached == 0 || exists|j: int| 0 <= j < k && (#[trigger] changes[j]).at == reached,
    {
        let at: usize = marks[k].at;
        assert(changes[k as int].at == at);
        assert(markup::advances(changes, k as int) == (at > reached));
        if at > reached {
            if !line.is_char_boundary(at) {
                return false;
            }
            reached = at;
        }
    }
    true
}

/// Parses a line and carries out its changes of scope.
fn read_line(state: &mut ParseState, stack: &mut ScopeStack, line: &str, set: &SyntaxSet) -> (r:
    Reading)
    requires
        syntax::linked(*set),
        syntax::tame(*set),
        syntax::syntaxes(*set).contains(syntax::origin(*old(state))),
    ensures
        syntax::origin(*final(state)) == syntax::origin(*old(state)),
        r@ == scan(*old(state), syntax::stack_view(*old(stack)), line@, *set),
        r is Long ==> *final(state) == *old(state) && *final(stack) == *old(stack),
        !(r is Long) ==> ({
            let (ops, after) = syntax::parsed(*old(state), line@, *set);
            &&& *final(state) == after
            &&& syntax::stack_view(*final(stack)) == match ops {
                Some(ops) => run(syntax::stack_view(*old(stack)), ops).scopes,
                None => syntax::stack_view(*old(stack)),
            }
        }),
{
    if line.as_bytes().len() > markup::LONGEST_LINE {
        return Reading::Long;
    }
    match syntax::parse_line(state, line, set) {
        Err(_) => Reading::Unreadable,
        Ok(ops) => {
            let (marks, whole) = run_ops(stack, &ops);
            if whole {
                Reading::Marks(marks)
            } else {
                Reading::Broken(marks)
            }
        },
    }
}

/// Highlights a text for files with the given extension and appends the HTML.
///
/// With `code_tag` each line becomes an element, and the spans that run over
/// the end of a line are closed there and opened in the next one. What had been
/// painted before a failure is appended too.
pub fn format_file_inner(
    out: &mut String,
    content: &str,
    extension: &str,
    syntax_set: &SyntaxSet,
    code_tag: bool,
) -> (r: Result<(), FormatError>)
    requires
        syntax::usable(*syntax_set, extension@),
    ensures
        final(out)@ == old(out)@ + markup::markup(
            text_page(content@, extension@, *syntax_set, code_tag).tokens,
        ),
        match text_worked(content@, extension@, *syntax_set, code_tag).failure {
            None => r is Ok,
            Some(failure) => r == Err::<(), FormatError>(failure),
        },
{
    let found = syntax::find_syntax(syntax_set, extension);
    let ghost found_syntax = *found;
    proof {
        syntax::lemma_found_in_set(*syntax_set, extension@);
    }
    let mut state = syntax::start(syntax_set, found);
    let mut stack = syntax::new_stack();
    let mut painter = Painter::new();
    let mut failed: Option<FormatError> = None;
    let lines = text::lines_with_endings(content);
    let ghost all = text::lines(content@);
    for k in 0..lines.len()
        invariant
            syntax::linked(*syntax_set),
            syntax::tame(*syntax_set),
            syntax::syntaxes(*syntax_set).contains(syntax::origin(state)),
            painter.wf(),
            all == text::views(lines@),
            ({
                let work = worked(all.take(k as int), found_syntax, *syntax_set, code_tag);
                &&& work.failure == failed
                &&& work.page == painter@
                &&& failed is None ==> work.state == state && work.scopes == syntax::stack_view(
                    stack,
                )
            }),
    {
        assert(all.take(k + 1).drop_last() == all.take(k as int));
        if failed.is_none() {
            let line = lines[k].as_str();
            assert(line@ == all[k as int]);
            let reading = read_line(&mut state, &mut stack, line, syntax_set);
            let fit = match &reading {
                Reading::Long => true,
                Reading::Unreadable => true,
                Reading::Marks(marks) => marks_fit(line, marks),
                Reading::Broken(marks) => marks_fit(line, marks),
            };
            if fit {
                let whole = painter.paint_line(line, &reading, code_tag);
                if !whole {
                    failed = match reading {
                        Reading::Broken(_) => Some(FormatError::Scope),
                        _ => Some(FormatError::Parse),
                    };
                }
            } else {
                let _ = painter.paint_line(line, &Reading::Unreadable, code_tag);
                failed = Some(FormatError::Offset);
            }
        }
    }
    assert(all.take(all.len() as int) == all);
    match failed {
        Some(failure) => {
            out.append(painter.html());
            Err(failure)
        },
        None => {
            if !code_tag {
                painter.end();
            }
            out.append(painter.html());
            Ok(())
        },
    }
}

/// The lines of a text as HTML elements, highlighted for files with the given
/// extension.
pub fn format_file(content: &str, extension: &str, syntax_set: &SyntaxSet) -> (r: Result<
    String,
    FormatError,
>)
    requires
        syntax::usable(*syntax_set, extension@),
    ensures
        match text_worked(content@, extension@, *syntax_set, true).failure {
            None => r matches Ok(html) && html@ == markup::markup(
                text_page(content@, extension@, *syntax_set, true).tokens,
            ),
            Some(failure) => r == Err::<String, FormatError>(failure),
        },
{
    let mut out = String::new();
    match format_file_inner(&mut out, content, extension, syntax_set, true) {
        Ok(_) => Ok(out),
        Err(failure) => Err(failure),
    }
}

// The laws

/// The spans for scopes that hold.
pub open spec fn spans_of(scopes: Scopes) -> Seq<Seq<char>> {
    scopes.holding.map_values(|scope: Scope| syntax::classes(scope))
}

proof fn lemma_steps_up(page: Page, scopes: Seq<Scope>)
    ensures
        markup::all_edited(page, step_edits(syntax::pushes(scopes))).open == page.open
            + scopes.map_values(|scope: Scope| syntax::classes(scope)),
    decreases scopes.len(),
{
    let steps = step_edits(syntax::pushes(scopes));
    if scopes.len() == 0 {
        assert(page.open + scopes.map_values(|scope: Scope| syntax::classes(scope)) == page.open);
    } else {
        lemma_steps_up(page, scopes.drop_last());
        assert(steps.drop_last() == step_edits(syntax::pushes(scopes.drop_last())));
        assert(markup::all_edited(page, steps).open == page.open + scopes.map_values(
            |scope: Scope| syntax::classes(scope),
        ));
    }
}

proof fn lemma_steps_down(page: Page, count: nat)
    ensures
        markup::all_edited(page, step_edits(syntax::pops(count))).open == page.open.take(
            page.open.len() - syntax::smaller(count, page.open.len()),
        ),
    decreases count,
{
    let steps = step_edits(syntax::pops(count));
    if count == 0 {
        assert(page.open.take(page.open.len() as int) == page.open);
    } else {
        let fewer = (count - 1) as nat;
        lemma_steps_down(page, fewer);
        assert(steps.drop_last() == step_edits(syntax::pops(fewer)));
        let before = markup::all_edited(page, steps.drop_last()).open;
        assert(before.len() > 0 ==> before.drop_last() == page.open.take(
            page.open.len() - syntax::smaller(count, page.open.len()),
        ));
    }
}

pub(crate) proof fn lemma_change_keeps_spans(page: Page, scopes: Scopes, op: ScopeOp)
    requires
        page.open == spans_of(scopes),
    ensures
        syntax::changed(scopes, op) matches Some((after, steps)) ==> markup::all_edited(
            page,
            step_edits(steps),
        ).open == spans_of(after),
{
    let n = scopes.holding.len();
    if let Some((after, steps)) = syntax::changed(scopes, op) {
        match op {
            ScopeOp::Push(scope) => {
                assert(steps == syntax::pushes(seq![scope]));
                lemma_steps_up(page, seq![scope]);
                assert(spans_of(after) == page.open + seq![scope].map_values(
                    |scope: Scope| syntax::classes(scope),
                ));
            },
            ScopeOp::Pop(count) => {
                lemma_steps_down(page, count as nat);
                assert(spans_of(after) == page.open.take(n - syntax::smaller(count as nat, n)));
            },
            ScopeOp::ClearTop(count) => {
                let m = syntax::smaller(count as nat, n);
                lemma_steps_down(page, m);
                assert(spans_of(after) == page.open.take(n - m));
            },
            ScopeOp::ClearAll => {
                lemma_steps_down(page, n);
                assert(spans_of(after) == page.open.take(0));
            },
            ScopeOp::Restore => {
                lemma_steps_up(page, scopes.aside.last());
                assert(spans_of(after) == page.open + scopes.aside.last().map_values(
                    |scope: Scope| syntax::classes(scope),
                ));
            },
            ScopeOp::Noop => {
                assert(step_edits(steps) == Seq::<Edit>::empty());
            },
        }
    }
}

proof fn lemma_run_keeps_spans(
    page: Page,
    scopes: Scopes,
    line: Seq<char>,
    ops: Seq<(usize, ScopeOp)>,
    code_tag: bool,
)
    requires
        page.open == spans_of(scopes),
    ensures
        markup::marked(page, line, run(scopes, ops).changes, code_tag).0.open == spans_of(
            run(scopes, ops).scopes,
        ),
    decreases ops.len(),
{
    if ops.len() > 0 {
        let before = run(scopes, ops.drop_last());
        let after = run(scopes, ops);
        let (at, op) = ops.last();
        lemma_run_keeps_spans(page, scopes, line, ops.drop_last(), code_tag);
        if !before.broken {
            assert(after.changes.drop_last() == before.changes);
            let (half, reached) = markup::marked(page, line, before.changes, code_tag);
            let caught = markup::caught_up(half, line, reached, at as int, code_tag);
            assert(caught.open == half.open);
            lemma_change_keeps_spans(caught, before.scopes, op);
        }
    }
}

proof fn lemma_line_keeps_spans(work: Work, line: Seq<char>, set: SyntaxSet, code_tag: bool)
    requires
        work.page.open == spans_of(work.scopes),
        advanced(work, line, set, code_tag).failure is None,
    ensures
        advanced(work, line, set, code_tag).page.open == spans_of(
            advanced(work, line, set, code_tag).scopes,
        ),
{
    let begun = if code_tag {
        markup::written(work.page, Token::CodeOpen)
    } else {
        work.page
    };
    let inner = if code_tag {
        markup::reopened(begun)
    } else {
        begun
    };
    if let Some(ops) = syntax::parsed(work.state, line, set).0 {
        lemma_run_keeps_spans(inner, work.scopes, line, ops, code_tag);
    }
}

/// As long as no line ends the work, the spans that are taken for open after a
/// line are those of the scopes that hold there, in the same order.
pub proof fn law_open_spans_follow_scopes(
    lines: Seq<Seq<char>>,
    syntax: SyntaxReference,
    set: SyntaxSet,
    code_tag: bool,
)
    requires
        worked(lines, syntax, set, code_tag).failure is None,
    ensures
        worked(lines, syntax, set, code_tag).page.open == spans_of(
            worked(lines, syntax, set, code_tag).scopes,
        ),
    decreases lines.len(),
{
    if lines.len() > 0 {
        let before = worked(lines.drop_last(), syntax, set, code_tag);
        law_open_spans_follow_scopes(lines.drop_last(), syntax, set, code_tag);
        lemma_line_keeps_spans(before, lines.last(), set, code_tag);
    }
}

/// Whether the work on a text finds every line in order: every change that
/// closes a span finds one open.
pub open spec fn orderly(
    lines: Seq<Seq<char>>,
    syntax: SyntaxReference,
    set: SyntaxSet,
    code_tag: bool,
) -> bool
    decreases lines.len(),
{
    lines.len() > 0 ==> {
        let before = worked(lines.drop_last(), syntax, set, code_tag);
        &&& orderly(lines.drop_last(), syntax, set, code_tag)
        &&& scan(before.state, before.scopes, lines.last(), set) matches Scan::Marks(changes)
            ==> page_laws::changes_find_spans(before.page.open.len() as int, changes)
    }
}

/// A line of its own around the given pieces.
pub open spec fn element(body: Seq<Token>) -> Seq<Token> {
    seq![Token::CodeOpen] + body + seq![Token::CodeClose]
}

/// The lines around the given pieces, one after the other.
pub open spec fn elements(bodies: Seq<Seq<Token>>) -> Seq<Token>
    decreases bodies.len(),
{
    if bodies.len() == 0 {
        seq![]
    } else {
        elements(bodies.drop_last()) + element(bodies.last())
    }
}

/// Whether the pieces are what stands for the lines: one element for each line,
/// in which spans are opened and closed in order and the text of the line is
/// shown once.
pub open spec fn line_by_line(
    tokens: Seq<Token>,
    bodies: Seq<Seq<Token>>,
    lines: Seq<Seq<char>>,
) -> bool {
    &&& bodies.len() == lines.len()
    &&& tokens == elements(bodies)
    &&& forall|k: int|
        0 <= k < lines.len() ==> page_laws::balanced(#[trigger] bodies[k]) && page_laws::shows(
            page_laws::shown_text(bodies[k]),
            lines[k],
            true,
        )
}

proof fn lemma_code_lines(lines: Seq<Seq<char>>, syntax: SyntaxReference, set: SyntaxSet)
    requires
        worked(lines, syntax, set, true).failure is None,
        orderly(lines, syntax, set, true),
        forall|k: int| 0 <= k < lines.len() ==> page_laws::one_line(#[trigger] lines[k]),
    ensures
        exists|bodies: Seq<Seq<Token>>|
            line_by_line(worked(lines, syntax, set, true).page.tokens, bodies, lines),
    decreases lines.len(),
{
    let tokens = worked(lines, syntax, set, true).page.tokens;
    if lines.len() == 0 {
        assert(line_by_line(tokens, seq![], lines));
    } else {
        let rest = lines.drop_last();
        let line = lines.last();
        assert(forall|k: int| 0 <= k < rest.len() ==> rest[k] == lines[k]);
        lemma_code_lines(rest, syntax, set);
        let before = worked(rest, syntax, set, true);
        let old_bodies = choose|bodies: Seq<Seq<Token>>|
            line_by_line(before.page.tokens, bodies, rest);
        assert(page_laws::one_line(lines[lines.len() - 1]));
        let body = match scan(before.state, before.scopes, line, set) {
            Scan::Marks(changes) => {
                page_laws::law_code_line(before.page, line, changes);
                choose|body: Seq<Token>|
                    {
                        &&& tokens == before.page.tokens + seq![Token::CodeOpen] + body + seq![
                            Token::CodeClose,
                        ]
                        &&& #[trigger] page_laws::balanced(body)
                        &&& page_laws::shows(page_laws::shown_text(body), line, true)
                    }
            },
            _ => {
                let text = text::trimmed_end(line);
                let body = seq![Token::Text(text)];
                page_laws::law_long_code_line(before.page, line);
                page_laws::lemma_lone_text(line);
                assert(tokens == before.page.tokens + seq![Token::CodeOpen] + body + seq![
                    Token::CodeClose,
                ]);
                body
            },
        };
        let bodies = old_bodies.push(body);
        assert(bodies.drop_last() == old_bodies);
        assert(tokens == elements(old_bodies) + element(body));
        assert forall|k: int| 0 <= k < lines.len() implies page_laws::balanced(
            #[trigger] bodies[k],
        ) && page_laws::shows(page_laws::shown_text(bodies[k]), lines[k], true) by {
            if k < rest.len() {
                assert(bodies[k] == old_bodies[k]);
            }
        }
        assert(line_by_line(tokens, bodies, lines));
    }
}

pub(crate) proof fn lemma_lines_are_lines(content: Seq<char>)
    ensures
        forall|k: int|
            0 <= k < text::lines(content).len() ==> page_laws::one_line(
                #[trigger] text::lines(content)[k],
            ),
{
    text::law_lines_make_up_the_text(content);
    let lines = text::lines(content);
    assert forall|k: int| 0 <= k < lines.len() implies page_laws::one_line(
        #[trigger] lines[k],
    ) by {
        assert forall|i: int| 0 <= i < lines[k].len() - 1 implies lines[k][i] != '\n' by {
            assert(lines[k][i] != '\n');
        }
    }
}

/// A text whose lines were all found in order becomes one element for each of
/// its lines. In each, spans are opened and closed in order and none is left
/// open, and the text of the line is shown once, without its line feed and
/// perhaps without some of the white space at its end.
pub proof fn law_one_element_for_each_line(
    content: Seq<char>,
    extension: Seq<char>,
    set: SyntaxSet,
)
    requires
        text_worked(content, extension, set, true).failure is None,
        orderly(text::lines(content), syntax::syntax_for(set, extension), set, true),
    ensures
        exists|bodies: Seq<Seq<Token>>|
            line_by_line(
                text_page(content, extension, set, true).tokens,
                bodies,
                text::lines(content),
            ),
{
    let lines = text::lines(content);
    lemma_lines_are_lines(content);
    lemma_code_lines(lines, syntax::syntax_for(set, extension), set);
    let bodies = choose|bodies: Seq<Seq<Token>>|
        line_by_line(text_worked(content, extension, set, true).page.tokens, bodies, lines);
    assert(line_by_line(text_page(content, extension, set, true).tokens, bodies, lines));
}

pub(crate) proof fn lemma_bare_lines(lines: Seq<Seq<char>>, syntax: SyntaxReference, set: SyntaxSet)
    requires
        worked(lines, syntax, set, false).failure is None,
        orderly(lines, syntax, set, false),
        forall|k: int| 0 <= k < lines.len() ==> page_laws::one_line(#[trigger] lines[k]),
    ensures
        ({
            let page = worked(lines, syntax, set, false).page;
            &&& page_laws::well_open(page)
            &&& page_laws::shown_text(page.tokens) == text::concatenated(lines)
        }),
    decreases lines.len(),
{
    if lines.len() > 0 {
        let rest = lines.drop_last();
        let line = lines.last();
        assert(forall|k: int| 0 <= k < rest.len() ==> rest[k] == lines[k]);
        lemma_bare_lines(rest, syntax, set);
        let before = worked(rest, syntax, set, false);
        assert(page_laws::one_line(lines[lines.len() - 1]));
        match scan(before.state, before.scopes, line, set) {
            Scan::Marks(changes) => {
                page_laws::law_bare_line(before.page, line, changes);
            },
            _ => {
                page_laws::law_long_bare_line(before.page, line);
            },
        }
    }
}

/// A text without elements for its lines, whose lines were all found in order,
/// is shown as it is: spans are opened and closed in order, none is left open,
/// and the text of the pieces is the text.
pub proof fn law_bare_text_is_shown(content: Seq<char>, extension: Seq<char>, set: SyntaxSet)
    requires
        text_worked(content, extension, set, false).failure is None,
        orderly(text::lines(content), syntax::syntax_for(set, extension), set, false),
    ensures
        page_laws::balanced(text_page(content, extension, set, false).tokens),
        page_laws::shown_text(text_page(content, extension, set, false).tokens) == content,
{
    lemma_lines_are_lines(content);
    text::law_lines_make_up_the_text(content);
    lemma_bare_lines(text::lines(content), syntax::syntax_for(set, extension), set);
    page_laws::law_closing_the_page(text_worked(content, extension, set, false).page);
}

}
