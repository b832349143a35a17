//! What highlighting is for: each character stands in the spans of the scopes
//! that the parser finds at its place.
//!
//! The scopes are told here from what the parser gives for each line, without
//! the edits and the pages in between.

use syntect::parsing::{ParseState, Scope, SyntaxReference, SyntaxSet};
use vstd::prelude::*;
use vstd::utf8::{encode_utf8, is_char_boundary};

use crate::{highlight, markup, page_laws, syntax, text};
use crate::highlight::{FormatError, Work};
use crate::markup::{Change, Edit, Page, Token};
use crate::syntax::{ScopeOp, ScopeStep, Scopes};

verus! {

/// The scopes after changes. One that cannot be carried out changes nothing.
pub open spec fn held(scopes: Scopes, ops: Seq<(usize, ScopeOp)>) -> Scopes
    decreases ops.len(),
{
    if ops.len() == 0 {
        scopes
    } else {
        let before = held(scopes, ops.drop_last());
        match syntax::changed(before, ops.last().1) {
            Some((after, _)) => after,
            None => before,
        }
    }
}

/// The changes up to the first one beyond an offset.
pub open spec fn ops_until(ops: Seq<(usize, ScopeOp)>, at: int) -> Seq<(usize, ScopeOp)>
    decreases ops.len(),
{
    if ops.len() == 0 {
        ops
    } else {
        let before = ops_until(ops.drop_last(), at);
        if before.len() == ops.len() - 1 && ops.last().0 <= at {
            ops
        } else {
            before
        }
    }
}

/// Whether all changes can be carried out: what is to be restored was set aside
/// before.
pub open spec fn carried(scopes: Scopes, ops: Seq<(usize, ScopeOp)>) -> bool
    decreases ops.len(),
{
    ops.len() > 0 ==> {
        &&& carried(scopes, ops.drop_last())
        &&& ops.last().1 is Restore ==> held(scopes, ops.drop_last()).aside.len() > 0
    }
}

/// Whether no change ends more scopes than hold.
pub open spec fn modest(scopes: Scopes, ops: Seq<(usize, ScopeOp)>) -> bool
    decreases ops.len(),
{
    ops.len() > 0 ==> {
        &&& modest(scopes, ops.drop_last())
        &&& ops.last().1 matches ScopeOp::Pop(count) ==> count <= held(
            scopes,
            ops.drop_last(),
        ).holding.len()
    }
}

/// Whether a change lies beyond the start of the line and all changes before it.
pub open spec fn furthest(ops: Seq<(usize, ScopeOp)>, k: int) -> bool {
    ops[k].0 > 0 && forall|j: int| 0 <= j < k ==> (#[trigger] ops[j]).0 < ops[k].0
}

/// Whether the changes lie between characters of the line.
pub open spec fn between_chars(line: Seq<char>, ops: Seq<(usize, ScopeOp)>) -> bool {
    forall|k: int|
        0 <= k < ops.len() && #[trigger] furthest(ops, k) ==> is_char_boundary(
            encode_utf8(line),
            ops[k].0 as int,
        )
}

/// Whether a line is too long to be parsed.
pub open spec fn overlong(line: Seq<char>) -> bool {
    encode_utf8(line).len() > 2048
}

/// The parser and the scopes after lines, where the syntax was started at the
/// first one.
pub open spec fn read(lines: Seq<Seq<char>>, syntax: SyntaxReference, set: SyntaxSet) -> (
    ParseState,
    Scopes,
)
    decreases lines.len(),
{
    if lines.len() == 0 {
        (syntax::start_state(syntax), Scopes { holding: seq![], aside: seq![] })
    } else {
        let (state, scopes) = read(lines.drop_last(), syntax, set);
        if overlong(lines.last()) {
            (state, scopes)
        } else {
            let (ops, after) = syntax::parsed(state, lines.last(), set);
            (after, held(scopes, ops->0))
        }
    }
}

/// Whether every line can be parsed, its changes carried out, and the line cut
/// where they lie.
pub open spec fn readable(lines: Seq<Seq<char>>, syntax: SyntaxReference, set: SyntaxSet) -> bool
    decreases lines.len(),
{
    lines.len() > 0 ==> {
        let (state, scopes) = read(lines.drop_last(), syntax, set);
        let line = lines.last();
        &&& readable(lines.drop_last(), syntax, set)
        &&& !overlong(line) ==> {
            &&& syntax::parsed(state, line, set).0 matches Some(ops)
            &&& carried(scopes, ops)
            &&& between_chars(line, ops)
        }
    }
}

/// Whether no line ends more scopes than hold.
pub open spec fn tidy(lines: Seq<Seq<char>>, syntax: SyntaxReference, set: SyntaxSet) -> bool
    decreases lines.len(),
{
    lines.len() > 0 ==> {
        let (state, scopes) = read(lines.drop_last(), syntax, set);
        &&& tidy(lines.drop_last(), syntax, set)
        &&& !overlong(lines.last()) ==> modest(
            scopes,
            syntax::parsed(state, lines.last(), set).0->0,
        )
    }
}

/// For each of the first characters of a line, the spans of the scopes that hold
/// there: those after the changes up to its offset.
pub open spec fn scopes_worn(
    scopes: Scopes,
    line: Seq<char>,
    ops: Seq<(usize, ScopeOp)>,
    count: nat,
) -> Seq<Seq<Seq<char>>> {
    Seq::new(
        count,
        |i: int|
            highlight::spans_of(
                held(scopes, ops_until(ops, encode_utf8(line.take(i)).len() as int)),
            ),
    )
}

/// The spans of the scopes that changes bring in, in order: those that come to
/// hold, and those that hold again.
pub open spec fn brought_in(scopes: Scopes, ops: Seq<(usize, ScopeOp)>) -> Seq<Seq<char>>
    decreases ops.len(),
{
    if ops.len() == 0 {
        seq![]
    } else {
        let before = held(scopes, ops.drop_last());
        brought_in(scopes, ops.drop_last()) + match ops.last().1 {
            ScopeOp::Push(scope) => seq![syntax::classes(scope)],
            ScopeOp::Restore => before.aside.last().map_values(
                |scope: Scope| syntax::classes(scope),
            ),
            _ => seq![],
        }
    }
}

/// Whether the given pieces open no spans but those that they should: those of the
/// scopes that hold at the start of the line and those of the scopes that its
/// changes bring in, in this order. A line that is too long to be parsed opens
/// none.
pub open spec fn opens_its_scopes(
    body: Seq<Token>,
    line: Seq<char>,
    from: (ParseState, Scopes),
    set: SyntaxSet,
) -> bool {
    page_laws::in_order_among(
        page_laws::opened(body),
        if overlong(line) {
            seq![]
        } else {
            highlight::spans_of(from.1) + brought_in(
                from.1,
                syntax::parsed(from.0, line, set).0->0,
            )
        },
    )
}

/// The spans of the scopes that the changes of lines bring in, in order.
pub open spec fn all_brought_in(
    lines: Seq<Seq<char>>,
    syntax: SyntaxReference,
    set: SyntaxSet,
) -> Seq<Seq<char>>
    decreases lines.len(),
{
    if lines.len() == 0 {
        seq![]
    } else {
        let line = lines.last();
        let (state, scopes) = read(lines.drop_last(), syntax, set);
        all_brought_in(lines.drop_last(), syntax, set) + if overlong(line) {
            seq![]
        } else {
            brought_in(scopes, syntax::parsed(state, line, set).0->0)
        }
    }
}

/// Whether a change lies behind a character of a line.
pub open spec fn op_behind(line: Seq<char>, i: int, ops: Seq<(usize, ScopeOp)>) -> bool {
    exists|k: int|
        0 <= k < ops.len() && encode_utf8(line.take(i + 1)).len() <= (#[trigger] ops[k]).0
}

/// Whether a character of a line is shown in an element: it does not belong to
/// the white space at the end, or a change lies behind it and it is no line feed.
pub open spec fn is_shown(
    line: Seq<char>,
    i: int,
    from: (ParseState, Scopes),
    set: SyntaxSet,
) -> bool {
    i < text::trimmed_end(line).len() || (!overlong(line) && line[i] != '\n' && op_behind(
        line,
        i,
        syntax::parsed(from.0, line, set).0->0,
    ))
}

/// Whether the given pieces show as much of a line as is shown in an element.
pub open spec fn shows_its_part(
    body: Seq<Token>,
    line: Seq<char>,
    from: (ParseState, Scopes),
    set: SyntaxSet,
) -> bool {
    forall|i: int|
        0 <= i < line.len() ==> #[trigger] is_shown(line, i, from, set) == (i
            < page_laws::shown_text(body).len())
}

/// Whether each character of a line, shown by the given pieces, stands in the
/// spans of the scopes that hold there. In a line that is too long to be parsed,
/// none stands in a span.
pub open spec fn wears_its_scopes(
    body: Seq<Token>,
    line: Seq<char>,
    from: (ParseState, Scopes),
    set: SyntaxSet,
) -> bool {
    let count = page_laws::shown_text(body).len();
    page_laws::dress(body) == if overlong(line) {
        Seq::new(count, |i: int| Seq::<Seq<char>>::empty())
    } else {
        scopes_worn(from.1, line, syntax::parsed(from.0, line, set).0->0, count)
    }
}

/// Whether the pieces are one element for each line, in which the text of the
/// line is shown, each of its characters stands in the spans of its scopes, and no
/// other spans are opened.
pub open spec fn highlighted(
    tokens: Seq<Token>,
    bodies: Seq<Seq<Token>>,
    lines: Seq<Seq<char>>,
    syntax: SyntaxReference,
    set: SyntaxSet,
) -> bool {
    &&& highlight::line_by_line(tokens, bodies, lines)
    &&& forall|k: int|
        0 <= k < lines.len() ==> wears_its_scopes(
            #[trigger] bodies[k],
            lines[k],
            read(lines.take(k), syntax, set),
            set,
        )
    &&& forall|k: int|
        0 <= k < lines.len() ==> shows_its_part(
            #[trigger] bodies[k],
            lines[k],
            read(lines.take(k), syntax, set),
            set,
        )
    &&& forall|k: int|
        0 <= k < lines.len() ==> opens_its_scopes(
            #[trigger] bodies[k],
            lines[k],
            read(lines.take(k), syntax, set),
            set,
        )
}

/// For each character of a text that is shown without elements, the spans of the
/// scopes that hold there. Those of a line that is too long to be parsed stand in
/// the spans that the lines before it left open.
pub open spec fn text_worn(lines: Seq<Seq<char>>, syntax: SyntaxReference, set: SyntaxSet) -> Seq<
    Seq<Seq<char>>,
>
    decreases lines.len(),
{
    if lines.len() == 0 {
        seq![]
    } else {
        let line = lines.last();
        let (state, scopes) = read(lines.drop_last(), syntax, set);
        text_worn(lines.drop_last(), syntax, set) + if overlong(line) {
            Seq::new(line.len(), |i: int| highlight::spans_of(scopes))
        } else {
            scopes_worn(scopes, line, syntax::parsed(state, line, set).0->0, line.len())
        }
    }
}

// Changes of a line

proof fn lemma_run(scopes: Scopes, ops: Seq<(usize, ScopeOp)>)
    ensures
        carried(scopes, ops) == !highlight::run(scopes, ops).broken,
        carried(scopes, ops) ==> {
            let done = highlight::run(scopes, ops);
            &&& done.scopes == held(scopes, ops)
            &&& done.changes.len() == ops.len()
            &&& forall|k: int|
                0 <= k < ops.len() ==> (#[trigger] done.changes[k]).at == ops[k].0
        },
    decreases ops.len(),
{
    if ops.len() > 0 {
        lemma_run(scopes, ops.drop_last());
    }
}

proof fn lemma_cuts(scopes: Scopes, line: Seq<char>, ops: Seq<(usize, ScopeOp)>)
    requires
        carried(scopes, ops),
    ensures
        between_chars(line, ops) == markup::fits(line, highlight::run(scopes, ops).changes),
{
    lemma_run(scopes, ops);
    let changes = highlight::run(scopes, ops).changes;
    assert forall|k: int| 0 <= k < ops.len() implies furthest(ops, k) == markup::advances(
        changes,
        k,
    ) by {
        assert(changes[k].at == ops[k].0);
        if furthest(ops, k) {
            assert forall|j: int| 0 <= j < k implies (#[trigger] changes[j]).at < changes[k].at by {
                assert(ops[j].0 < ops[k].0);
            }
        }
        if markup::advances(changes, k) {
            assert forall|j: int| 0 <= j < k implies (#[trigger] ops[j]).0 < ops[k].0 by {
                assert(changes[j].at < changes[k].at);
            }
        }
    }
    if between_chars(line, ops) {
        assert forall|k: int| 0 <= k < changes.len() && #[trigger] markup::advances(
            changes,
            k,
        ) implies text::cuttable(line, changes[k].at) by {
            assert(furthest(ops, k));
        }
    }
    if markup::fits(line, changes) {
        assert forall|k: int| 0 <= k < ops.len() && #[trigger] furthest(
            ops,
            k,
        ) implies is_char_boundary(encode_utf8(line), ops[k].0 as int) by {
            assert(markup::advances(changes, k));
            assert(text::cuttable(line, changes[k].at));
        }
    }
}

proof fn lemma_until(scopes: Scopes, ops: Seq<(usize, ScopeOp)>, at: int)
    requires
        carried(scopes, ops),
    ensures
        ops_until(ops, at).len() <= ops.len(),
        carried(scopes, ops_until(ops, at)),
        page_laws::changes_until(highlight::run(scopes, ops).changes, at) == highlight::run(
            scopes,
            ops_until(ops, at),
        ).changes,
    decreases ops.len(),
{
    if ops.len() > 0 {
        lemma_until(scopes, ops.drop_last(), at);
        lemma_run(scopes, ops);
        lemma_run(scopes, ops.drop_last());
        lemma_run(scopes, ops_until(ops.drop_last(), at));
        let changes = highlight::run(scopes, ops).changes;
        assert(changes.drop_last() == highlight::run(scopes, ops.drop_last()).changes);
        assert(changes.last().at == ops.last().0);
    }
}

proof fn lemma_edited_stack(page: Page, edits: Seq<Edit>)
    ensures
        markup::all_edited(page, edits).open == page_laws::stack_after(page.open, edits),
    decreases edits.len(),
{
    if edits.len() > 0 {
        lemma_edited_stack(page, edits.drop_last());
    }
}

proof fn lemma_run_stack(scopes: Scopes, ops: Seq<(usize, ScopeOp)>)
    requires
        carried(scopes, ops),
    ensures
        page_laws::stack_after_changes(
            highlight::spans_of(scopes),
            highlight::run(scopes, ops).changes,
        ) == highlight::spans_of(held(scopes, ops)),
    decreases ops.len(),
{
    lemma_run(scopes, ops);
    if ops.len() > 0 {
        let before = ops.drop_last();
        lemma_run(scopes, before);
        lemma_run_stack(scopes, before);
        let changes = highlight::run(scopes, ops).changes;
        assert(changes.drop_last() == highlight::run(scopes, before).changes);
        let half = held(scopes, before);
        let page = Page { tokens: seq![], open: highlight::spans_of(half), fresh: false };
        highlight::lemma_change_keeps_spans(page, half, ops.last().1);
        lemma_edited_stack(page, changes.last().edits);
    }
}

proof fn lemma_worn(scopes: Scopes, line: Seq<char>, ops: Seq<(usize, ScopeOp)>, count: nat)
    requires
        carried(scopes, ops),
    ensures
        page_laws::attire(
            highlight::spans_of(scopes),
            line,
            highlight::run(scopes, ops).changes,
            count,
        ) == scopes_worn(scopes, line, ops, count),
{
    let changes = highlight::run(scopes, ops).changes;
    let open = highlight::spans_of(scopes);
    assert forall|i: int| 0 <= i < count implies page_laws::attire(open, line, changes, count)[i]
        == scopes_worn(scopes, line, ops, count)[i] by {
        let at = encode_utf8(line.take(i)).len() as int;
        lemma_until(scopes, ops, at);
        lemma_run_stack(scopes, ops_until(ops, at));
    }
}

proof fn lemma_push_openings(scopes: Seq<Scope>)
    ensures
        page_laws::openings(highlight::step_edits(syntax::pushes(scopes))) == scopes.map_values(
            |scope: Scope| syntax::classes(scope),
        ),
    decreases scopes.len(),
{
    let edits = highlight::step_edits(syntax::pushes(scopes));
    let classes = scopes.map_values(|scope: Scope| syntax::classes(scope));
    if scopes.len() == 0 {
        assert(classes == Seq::<Seq<char>>::empty());
    } else {
        let before = scopes.drop_last();
        lemma_push_openings(before);
        assert(edits.drop_last() == highlight::step_edits(syntax::pushes(before)));
        assert(edits.last() == Edit::Open(syntax::classes(scopes.last())));
        assert(before.map_values(|scope: Scope| syntax::classes(scope)).push(
            syntax::classes(scopes.last()),
        ) == classes);
    }
}

proof fn lemma_pop_openings(count: nat)
    ensures
        page_laws::openings(highlight::step_edits(syntax::pops(count))) == Seq::<
            Seq<char>,
        >::empty(),
    decreases count,
{
    let edits = highlight::step_edits(syntax::pops(count));
    if count > 0 {
        lemma_pop_openings((count - 1) as nat);
        assert(edits.drop_last() == highlight::step_edits(syntax::pops((count - 1) as nat)));
        assert(edits.last() is Close);
    }
}

proof fn lemma_run_openings(scopes: Scopes, ops: Seq<(usize, ScopeOp)>)
    requires
        carried(scopes, ops),
    ensures
        page_laws::change_openings(highlight::run(scopes, ops).changes) == brought_in(scopes, ops),
    decreases ops.len(),
{
    lemma_run(scopes, ops);
    if ops.len() > 0 {
        let before = ops.drop_last();
        lemma_run(scopes, before);
        lemma_run_openings(scopes, before);
        let changes = highlight::run(scopes, ops).changes;
        assert(changes.drop_last() == highlight::run(scopes, before).changes);
        let half = held(scopes, before);
        let (_, steps) = syntax::changed(half, ops.last().1)->0;
        assert(changes.last().edits == highlight::step_edits(steps));
        match ops.last().1 {
            ScopeOp::Push(scope) => {
                lemma_push_openings(seq![scope]);
                assert(steps == syntax::pushes(seq![scope]));
                assert(seq![scope].map_values(|scope: Scope| syntax::classes(scope)) == seq![
                    syntax::classes(scope),
                ]);
            },
            ScopeOp::Pop(count) => lemma_pop_openings(count as nat),
            ScopeOp::ClearTop(count) => lemma_pop_openings(
                syntax::smaller(count as nat, half.holding.len()),
            ),
            ScopeOp::ClearAll => lemma_pop_openings(half.holding.len()),
            ScopeOp::Restore => lemma_push_openings(half.aside.last()),
            ScopeOp::Noop => {
                assert(highlight::step_edits(steps) == Seq::<Edit>::empty());
            },
        }
    }
}

proof fn lemma_behind(scopes: Scopes, line: Seq<char>, ops: Seq<(usize, ScopeOp)>, i: int)
    requires
        carried(scopes, ops),
    ensures
        page_laws::passed(line, i, highlight::run(scopes, ops).changes) == op_behind(line, i, ops),
{
    lemma_run(scopes, ops);
    let changes = highlight::run(scopes, ops).changes;
    if page_laws::passed(line, i, changes) {
        let k = choose|k: int|
            0 <= k < changes.len() && text::byte_len(line.take(i + 1)) <= (
            #[trigger] changes[k]).at;
        assert(encode_utf8(line.take(i + 1)).len() <= ops[k].0);
    }
    if op_behind(line, i, ops) {
        let k = choose|k: int|
            0 <= k < ops.len() && encode_utf8(line.take(i + 1)).len() <= (#[trigger] ops[k]).0;
        assert(text::byte_len(line.take(i + 1)) <= changes[k].at);
    }
}

proof fn lemma_pops_find(open: int, count: nat)
    requires
        count <= open,
    ensures
        page_laws::closes_find_spans(open, highlight::step_edits(syntax::pops(count))),
        page_laws::open_after(open, highlight::step_edits(syntax::pops(count))) == open - count,
    decreases count,
{
    let edits = highlight::step_edits(syntax::pops(count));
    if count > 0 {
        let fewer = (count - 1) as nat;
        lemma_pops_find(open, fewer);
        assert(edits.drop_last() == highlight::step_edits(syntax::pops(fewer)));
    }
}

proof fn lemma_pushes_find(open: int, steps: Seq<ScopeStep>)
    requires
        forall|i: int| 0 <= i < steps.len() ==> #[trigger] steps[i] is Push,
    ensures
        page_laws::closes_find_spans(open, highlight::step_edits(steps)),
        page_laws::open_after(open, highlight::step_edits(steps)) == open + steps.len(),
    decreases steps.len(),
{
    let edits = highlight::step_edits(steps);
    if steps.len() > 0 {
        lemma_pushes_find(open, steps.drop_last());
        assert(edits.drop_last() == highlight::step_edits(steps.drop_last()));
        assert(edits.last() == highlight::step_edit(steps[steps.len() - 1]));
    }
}

proof fn lemma_modest_run(scopes: Scopes, ops: Seq<(usize, ScopeOp)>)
    requires
        carried(scopes, ops),
        modest(scopes, ops),
    ensures
        page_laws::changes_find_spans(
            scopes.holding.len() as int,
            highlight::run(scopes, ops).changes,
        ),
        page_laws::open_after_changes(
            scopes.holding.len() as int,
            highlight::run(scopes, ops).changes,
        ) == held(scopes, ops).holding.len(),
    decreases ops.len(),
{
    lemma_run(scopes, ops);
    if ops.len() > 0 {
        let before = ops.drop_last();
        lemma_run(scopes, before);
        lemma_modest_run(scopes, before);
        let changes = highlight::run(scopes, ops).changes;
        assert(changes.drop_last() == highlight::run(scopes, before).changes);
        let half = held(scopes, before);
        let open = half.holding.len() as int;
        let (_, steps) = syntax::changed(half, ops.last().1)->0;
        assert(changes.last().edits == highlight::step_edits(steps));
        match ops.last().1 {
            ScopeOp::Pop(count) => lemma_pops_find(open, count as nat),
            ScopeOp::ClearTop(count) => lemma_pops_find(
                open,
                syntax::smaller(count as nat, half.holding.len()),
            ),
            ScopeOp::ClearAll => lemma_pops_find(open, half.holding.len()),
            _ => lemma_pushes_find(open, steps),
        }
    }
}

// Lines

proof fn lemma_read(
    lines: Seq<Seq<char>>,
    syntax: SyntaxReference,
    set: SyntaxSet,
    code_tag: bool,
)
    ensures
        readable(lines, syntax, set) == (highlight::worked(
            lines,
            syntax,
            set,
            code_tag,
        ).failure is None),
        readable(lines, syntax, set) ==> {
            let work = highlight::worked(lines, syntax, set, code_tag);
            (work.state, work.scopes) == read(lines, syntax, set)
        },
    decreases lines.len(),
{
    if lines.len() > 0 {
        let rest = lines.drop_last();
        let line = lines.last();
        lemma_read(rest, syntax, set, code_tag);
        let (state, scopes) = read(rest, syntax, set);
        if let Some(ops) = syntax::parsed(state, line, set).0 {
            lemma_run(scopes, ops);
            if carried(scopes, ops) {
                lemma_cuts(scopes, line, ops);
            }
        }
    }
}

proof fn lemma_orderly(
    lines: Seq<Seq<char>>,
    syntax: SyntaxReference,
    set: SyntaxSet,
    code_tag: bool,
)
    requires
        readable(lines, syntax, set),
        tidy(lines, syntax, set),
    ensures
        highlight::orderly(lines, syntax, set, code_tag),
    decreases lines.len(),
{
    if lines.len() > 0 {
        let rest = lines.drop_last();
        lemma_orderly(rest, syntax, set, code_tag);
        lemma_read(rest, syntax, set, code_tag);
        highlight::law_open_spans_follow_scopes(rest, syntax, set, code_tag);
        let (state, scopes) = read(rest, syntax, set);
        if !overlong(lines.last()) {
            let ops = syntax::parsed(state, lines.last(), set).0->0;
            lemma_modest_run(scopes, ops);
            lemma_run(scopes, ops);
        }
    }
}

proof fn lemma_code_line(work: Work, line: Seq<char>, set: SyntaxSet) -> (body: Seq<Token>)
    requires
        work.page.open == highlight::spans_of(work.scopes),
        page_laws::one_line(line),
        !overlong(line) ==> {
            &&& syntax::parsed(work.state, line, set).0 matches Some(ops)
            &&& carried(work.scopes, ops)
            &&& between_chars(line, ops)
            &&& modest(work.scopes, ops)
        },
    ensures
        highlight::advanced(work, line, set, true).page.tokens == work.page.tokens
            + highlight::element(body),
        page_laws::balanced(body),
        page_laws::shows(page_laws::shown_text(body), line, true),
        wears_its_scopes(body, line, (work.state, work.scopes), set),
        shows_its_part(body, line, (work.state, work.scopes), set),
        opens_its_scopes(body, line, (work.state, work.scopes), set),
{
    let tokens = highlight::advanced(work, line, set, true).page.tokens;
    if overlong(line) {
        let text = text::trimmed_end(line);
        let body = seq![Token::Text(text)];
        page_laws::law_long_code_line(work.page, line);
        page_laws::lemma_lone_text(line);
        assert(tokens == work.page.tokens + highlight::element(body));
        assert(body.drop_last() == Seq::<Token>::empty());
        let none = Seq::new(text.len(), |i: int| Seq::<Seq<char>>::empty());
        assert(page_laws::enclosing(body.drop_last()) == Seq::<Seq<char>>::empty());
        assert(page_laws::dress(body.drop_last()) == Seq::<Seq<Seq<char>>>::empty());
        assert(page_laws::dress(body) == none);
        page_laws::lemma_dress_len(body);
        assert(page_laws::shown_text(body.drop_last()) == Seq::<char>::empty());
        assert(page_laws::shown_text(body) == text);
        assert(page_laws::opened(body.drop_last()) == Seq::<Seq<char>>::empty());
        assert(page_laws::opened(body) == Seq::<Seq<char>>::empty());
        assert(shows_its_part(body, line, (work.state, work.scopes), set));
        body
    } else {
        let ops = syntax::parsed(work.state, line, set).0->0;
        let changes = highlight::run(work.scopes, ops).changes;
        lemma_run(work.scopes, ops);
        lemma_cuts(work.scopes, line, ops);
        lemma_modest_run(work.scopes, ops);
        page_laws::law_code_line(work.page, line, changes);
        let body = choose|body: Seq<Token>|
            {
                &&& tokens == work.page.tokens + seq![Token::CodeOpen] + body + seq![
                    Token::CodeClose,
                ]
                &&& #[trigger] page_laws::balanced(body)
                &&& page_laws::shows(page_laws::shown_text(body), line, true)
                &&& page_laws::dress(body) == page_laws::attire(
                    work.page.open,
                    line,
                    changes,
                    page_laws::shown_text(body).len(),
                )
                &&& page_laws::shows_part(page_laws::shown_text(body), line, changes)
                &&& page_laws::in_order_among(
                    page_laws::opened(body),
                    work.page.open + page_laws::change_openings(changes),
                )
            };
        lemma_run_openings(work.scopes, ops);
        let shown = page_laws::shown_text(body);
        assert(page_laws::shows_part(shown, line, changes));
        assert forall|i: int| 0 <= i < line.len() implies #[trigger] is_shown(
            line,
            i,
            (work.state, work.scopes),
            set,
        ) == (i < shown.len()) by {
            lemma_behind(work.scopes, line, ops, i);
            assert(page_laws::is_shown(line, i, changes) == (i < shown.len()));
        }
        assert(shows_its_part(body, line, (work.state, work.scopes), set));
        assert(tokens == work.page.tokens + highlight::element(body));
        lemma_worn(work.scopes, line, ops, page_laws::shown_text(body).len());
        body
    }
}

proof fn lemma_code_lines(
    lines: Seq<Seq<char>>,
    syntax: SyntaxReference,
    set: SyntaxSet,
) -> (bodies: Seq<Seq<Token>>)
    requires
        readable(lines, syntax, set),
        tidy(lines, syntax, set),
        forall|k: int| 0 <= k < lines.len() ==> page_laws::one_line(#[trigger] lines[k]),
    ensures
        highlighted(
            highlight::worked(lines, syntax, set, true).page.tokens,
            bodies,
            lines,
            syntax,
            set,
        ),
    decreases lines.len(),
{
    let tokens = highlight::worked(lines, syntax, set, true).page.tokens;
    if lines.len() == 0 {
        seq![]
    } else {
        let rest = lines.drop_last();
        let line = lines.last();
        assert(forall|k: int| 0 <= k < rest.len() ==> rest[k] == lines[k]);
        let old_bodies = lemma_code_lines(rest, syntax, set);
        let work = highlight::worked(rest, syntax, set, true);
        lemma_read(rest, syntax, set, true);
        highlight::law_open_spans_follow_scopes(rest, syntax, set, true);
        assert(page_laws::one_line(lines[lines.len() - 1]));
        let body = lemma_code_line(work, line, set);
        let bodies = old_bodies.push(body);
        assert(bodies.drop_last() == old_bodies);
        assert forall|k: int| 0 <= k < lines.len() implies page_laws::balanced(
            #[trigger] bodies[k],
        ) && page_laws::shows(page_laws::shown_text(bodies[k]), lines[k], true) by {
            if k < rest.len() {
                assert(bodies[k] == old_bodies[k]);
            }
        }
        assert(highlight::line_by_line(tokens, bodies, lines));
        assert forall|k: int| 0 <= k < lines.len() implies wears_its_scopes(
            #[trigger] bodies[k],
            lines[k],
            read(lines.take(k), syntax, set),
            set,
        ) by {
            if k < rest.len() {
                assert(bodies[k] == old_bodies[k]);
                assert(lines.take(k) == rest.take(k));
            } else {
                assert(lines.take(k) == rest);
            }
        }
        assert forall|k: int| 0 <= k < lines.len() implies shows_its_part(
            #[trigger] bodies[k],
            lines[k],
            read(lines.take(k), syntax, set),
            set,
        ) by {
            if k < rest.len() {
                assert(bodies[k] == old_bodies[k]);
                assert(lines.take(k) == rest.take(k));
            } else {
                assert(lines.take(k) == rest);
            }
        }
        assert forall|k: int| 0 <= k < lines.len() implies opens_its_scopes(
            #[trigger] bodies[k],
            lines[k],
            read(lines.take(k), syntax, set),
            set,
        ) by {
            if k < rest.len() {
                assert(bodies[k] == old_bodies[k]);
                assert(lines.take(k) == rest.take(k));
            } else {
                assert(lines.take(k) == rest);
            }
        }
        bodies
    }
}

proof fn lemma_bare_lines(lines: Seq<Seq<char>>, syntax: SyntaxReference, set: SyntaxSet)
    requires
        readable(lines, syntax, set),
        tidy(lines, syntax, set),
        forall|k: int| 0 <= k < lines.len() ==> page_laws::one_line(#[trigger] lines[k]),
    ensures
        ({
            let page = highlight::worked(lines, syntax, set, false).page;
            &&& page_laws::well_open(page)
            &&& page_laws::enclosing(page.tokens) == page.open
            &&& page_laws::dress(page.tokens) == text_worn(lines, syntax, set)
            &&& page_laws::in_order_among(
                page_laws::opened(page.tokens),
                all_brought_in(lines, syntax, set),
            )
        }),
    decreases lines.len(),
{
    if lines.len() > 0 {
        let rest = lines.drop_last();
        let line = lines.last();
        assert(forall|k: int| 0 <= k < rest.len() ==> rest[k] == lines[k]);
        lemma_bare_lines(rest, syntax, set);
        let before = highlight::worked(rest, syntax, set, false);
        lemma_read(rest, syntax, set, false);
        highlight::law_open_spans_follow_scopes(rest, syntax, set, false);
        assert(page_laws::one_line(lines[lines.len() - 1]));
        if overlong(line) {
            page_laws::law_long_bare_line(before.page, line);
            page_laws::law_long_bare_line_is_dressed(before.page, line);
            assert(all_brought_in(lines, syntax, set) == all_brought_in(rest, syntax, set));
        } else {
            let ops = syntax::parsed(before.state, line, set).0->0;
            let changes = highlight::run(before.scopes, ops).changes;
            lemma_run(before.scopes, ops);
            lemma_cuts(before.scopes, line, ops);
            lemma_modest_run(before.scopes, ops);
            page_laws::law_bare_line(before.page, line, changes);
            page_laws::law_bare_line_is_dressed(before.page, line, changes);
            lemma_worn(before.scopes, line, ops, line.len());
            lemma_run_openings(before.scopes, ops);
            let all = all_brought_in(rest, syntax, set);
            assert(page_laws::in_order_among(
                page_laws::opened(highlight::worked(lines, syntax, set, false).page.tokens),
                all + page_laws::change_openings(changes),
            ));
        }
    }
}

// The laws

/// A text is highlighted to its end if and only if every line of it can be
/// parsed by the syntax for the extension, its changes of scope carried out, and
/// the line cut where they lie. Whether the lines become elements plays no part.
pub proof fn law_readable_text_is_highlighted(
    content: Seq<char>,
    extension: Seq<char>,
    set: SyntaxSet,
    code_tag: bool,
)
    ensures
        highlight::text_worked(content, extension, set, code_tag).failure is None <==> readable(
            text::lines(content),
            syntax::syntax_for(set, extension),
            set,
        ),
{
    lemma_read(text::lines(content), syntax::syntax_for(set, extension), set, code_tag);
}

/// The first line that cannot be read ends the work, and what is wrong with it
/// is the error: it cannot be parsed, it restores scopes that were not set aside,
/// or it has a change within a character. The lines after it play no part.
pub proof fn law_first_bad_line_is_the_error(
    good: Seq<Seq<char>>,
    bad: Seq<char>,
    more: Seq<Seq<char>>,
    syntax: SyntaxReference,
    set: SyntaxSet,
    code_tag: bool,
)
    requires
        readable(good, syntax, set),
        !readable(good.push(bad), syntax, set),
    ensures
        ({
            let (state, scopes) = read(good, syntax, set);
            let failure = highlight::worked(good.push(bad) + more, syntax, set, code_tag).failure;
            match syntax::parsed(state, bad, set).0 {
                None => failure == Some(FormatError::Parse),
                Some(ops) => {
                    &&& carried(scopes, ops) ==> failure == Some(FormatError::Offset)
                    &&& !carried(scopes, ops) ==> failure == Some(FormatError::Scope) || failure
                        == Some(FormatError::Offset)
                    &&& !carried(scopes, ops) && (forall|k: int|
                        0 <= k < ops.len() ==> is_char_boundary(
                            encode_utf8(bad),
                            (#[trigger] ops[k]).0 as int,
                        )) ==> failure == Some(FormatError::Scope)
                },
            }
        }),
    decreases more.len(),
{
    let lines = good.push(bad);
    if more.len() > 0 {
        law_first_bad_line_is_the_error(good, bad, more.drop_last(), syntax, set, code_tag);
        assert((lines + more).drop_last() == lines + more.drop_last());
    } else {
        assert(lines + more == lines);
        assert(lines.drop_last() == good);
        lemma_read(good, syntax, set, code_tag);
        let (state, scopes) = read(good, syntax, set);
        if let Some(ops) = syntax::parsed(state, bad, set).0 {
            lemma_run(scopes, ops);
            if carried(scopes, ops) {
                lemma_cuts(scopes, bad, ops);
            } else {
                lemma_broken_offsets(scopes, ops);
                let changes = highlight::run(scopes, ops).changes;
                if forall|k: int|
                    0 <= k < ops.len() ==> is_char_boundary(
                        encode_utf8(bad),
                        (#[trigger] ops[k]).0 as int,
                    ) {
                    assert forall|k: int| 0 <= k < changes.len() && #[trigger] markup::advances(
                        changes,
                        k,
                    ) implies text::cuttable(bad, changes[k].at) by {
                        assert(changes[k].at == ops[k].0);
                    }
                }
            }
        }
    }
}

/// What was painted before a line that cannot be parsed, or that has a change
/// within a character, is kept as it is, where lines are no elements. Nothing is
/// painted of that line or after it.
pub proof fn law_what_was_painted_is_kept(
    good: Seq<Seq<char>>,
    bad: Seq<char>,
    more: Seq<Seq<char>>,
    syntax: SyntaxReference,
    set: SyntaxSet,
)
    requires
        readable(good, syntax, set),
        !readable(good.push(bad), syntax, set),
    ensures
        ({
            let (state, scopes) = read(good, syntax, set);
            let ops = syntax::parsed(state, bad, set).0;
            (ops is None || carried(scopes, ops->0)) ==> highlight::worked(
                good.push(bad) + more,
                syntax,
                set,
                false,
            ).page == highlight::worked(good, syntax, set, false).page
        }),
    decreases more.len(),
{
    let lines = good.push(bad);
    if more.len() > 0 {
        law_what_was_painted_is_kept(good, bad, more.drop_last(), syntax, set);
        law_first_bad_line_is_the_error(good, bad, more.drop_last(), syntax, set, false);
        assert((lines + more).drop_last() == lines + more.drop_last());
    } else {
        assert(lines + more == lines);
        assert(lines.drop_last() == good);
        lemma_read(good, syntax, set, false);
        let (state, scopes) = read(good, syntax, set);
        if let Some(ops) = syntax::parsed(state, bad, set).0 {
            lemma_run(scopes, ops);
            if carried(scopes, ops) {
                lemma_cuts(scopes, bad, ops);
            }
        }
    }
}

proof fn lemma_breaks_off(scopes: Scopes, ops: Seq<(usize, ScopeOp)>, k: int)
    requires
        0 <= k < ops.len(),
        carried(scopes, ops.take(k)),
        !carried(scopes, ops.take(k + 1)),
    ensures
        !carried(scopes, ops),
        highlight::run(scopes, ops).broken,
        highlight::run(scopes, ops).changes == highlight::run(scopes, ops.take(k)).changes.push(
            Change { at: ops[k].0 as int, edits: seq![] },
        ),
    decreases ops.len(),
{
    if k == ops.len() - 1 {
        assert(ops.take(k + 1) == ops);
        assert(ops.drop_last() == ops.take(k));
        lemma_run(scopes, ops.take(k));
        lemma_run(scopes, ops);
    } else {
        let before = ops.drop_last();
        assert(before.take(k) == ops.take(k));
        assert(before.take(k + 1) == ops.take(k + 1));
        lemma_breaks_off(scopes, before, k);
    }
}

/// Where a line restores scopes that were not set aside, the lines before it are
/// shown, and of that line what stands before the change that cannot be carried
/// out or one of those before it, where lines are no elements. This holds where
/// no change up to there lies within a character or ends more scopes than hold.
pub proof fn law_line_is_shown_until_it_breaks_off(
    good: Seq<Seq<char>>,
    bad: Seq<char>,
    more: Seq<Seq<char>>,
    ops: Seq<(usize, ScopeOp)>,
    k: int,
    syntax: SyntaxReference,
    set: SyntaxSet,
)
    requires
        readable(good, syntax, set),
        tidy(good, syntax, set),
        forall|j: int| 0 <= j < good.len() ==> page_laws::one_line(#[trigger] good[j]),
        page_laws::one_line(bad),
        !overlong(bad),
        syntax::parsed(read(good, syntax, set).0, bad, set).0 == Some(ops),
        0 <= k < ops.len(),
        carried(read(good, syntax, set).1, ops.take(k)),
        !carried(read(good, syntax, set).1, ops.take(k + 1)),
        modest(read(good, syntax, set).1, ops.take(k)),
        between_chars(bad, ops.take(k + 1)),
    ensures
        ({
            let work = highlight::worked(good.push(bad) + more, syntax, set, false);
            &&& work.failure == Some(FormatError::Scope)
            &&& exists|n: int|
                {
                    &&& 0 <= n <= bad.len()
                    &&& page_laws::shown_text(work.page.tokens) == text::concatenated(good)
                        + #[trigger] bad.take(n)
                    &&& forall|i: int|
                        0 <= i < bad.len() ==> (i < n <==> #[trigger] op_behind(
                            bad,
                            i,
                            ops.take(k + 1),
                        ))
                }
        }),
    decreases more.len(),
{
    let lines = good.push(bad);
    if more.len() > 0 {
        law_line_is_shown_until_it_breaks_off(good, bad, more.drop_last(), ops, k, syntax, set);
        assert((lines + more).drop_last() == lines + more.drop_last());
    } else {
        assert(lines + more == lines);
        assert(lines.drop_last() == good);
        let (state, scopes) = read(good, syntax, set);
        let work = highlight::worked(good, syntax, set, false);
        lemma_read(good, syntax, set, false);
        lemma_orderly(good, syntax, set, false);
        highlight::lemma_bare_lines(good, syntax, set);
        highlight::law_open_spans_follow_scopes(good, syntax, set, false);
        let head = ops.take(k + 1);
        let changes = highlight::run(scopes, ops).changes;
        lemma_breaks_off(scopes, ops, k);
        lemma_run(scopes, ops.take(k));
        lemma_modest_run(scopes, ops.take(k));
        assert(changes.drop_last() == highlight::run(scopes, ops.take(k)).changes);
        assert forall|j: int| 0 <= j < head.len() implies (#[trigger] changes[j]).at
            == head[j].0 by {
            if j < k {
                assert(changes[j] == changes.drop_last()[j]);
                assert(head[j] == ops.take(k)[j]);
            }
        }
        assert forall|j: int| 0 <= j < changes.len() && #[trigger] markup::advances(
            changes,
            j,
        ) implies text::cuttable(bad, changes[j].at) by {
            assert forall|m: int| 0 <= m < j implies (#[trigger] head[m]).0 < head[j].0 by {
                assert(changes[m].at < changes[j].at);
            }
            assert(furthest(head, j));
        }
        page_laws::law_broken_line(work.page, bad, changes);
        assert forall|i: int| 0 <= i < bad.len() implies page_laws::passed(bad, i, changes)
            == #[trigger] op_behind(bad, i, head) by {
            if page_laws::passed(bad, i, changes) {
                let j = choose|j: int|
                    0 <= j < changes.len() && text::byte_len(bad.take(i + 1)) <= (
                    #[trigger] changes[j]).at;
                assert(encode_utf8(bad.take(i + 1)).len() <= head[j].0);
            }
            if op_behind(bad, i, head) {
                let j = choose|j: int|
                    0 <= j < head.len() && encode_utf8(bad.take(i + 1)).len() <= (
                    #[trigger] head[j]).0;
                assert(text::byte_len(bad.take(i + 1)) <= changes[j].at);
            }
        }
    }
}

proof fn lemma_broken_offsets(scopes: Scopes, ops: Seq<(usize, ScopeOp)>)
    ensures
        ({
            let changes = highlight::run(scopes, ops).changes;
            &&& changes.len() <= ops.len()
            &&& !highlight::run(scopes, ops).broken ==> changes.len() == ops.len()
            &&& forall|k: int| 0 <= k < changes.len() ==> (#[trigger] changes[k]).at == ops[k].0
        }),
    decreases ops.len(),
{
    if ops.len() > 0 {
        lemma_broken_offsets(scopes, ops.drop_last());
    }
}

/// A text that can be read becomes one element for each of its lines, and each
/// character that is shown stands in the spans of the scopes that the parser of
/// the syntax for the extension finds there. No spans of other scopes are opened.
/// This holds where no line ends more scopes than hold.
pub proof fn law_characters_wear_their_scopes(
    content: Seq<char>,
    extension: Seq<char>,
    set: SyntaxSet,
)
    requires
        readable(text::lines(content), syntax::syntax_for(set, extension), set),
        tidy(text::lines(content), syntax::syntax_for(set, extension), set),
    ensures
        exists|bodies: Seq<Seq<Token>>|
            highlighted(
                highlight::text_page(content, extension, set, true).tokens,
                bodies,
                text::lines(content),
                syntax::syntax_for(set, extension),
                set,
            ),
{
    highlight::lemma_lines_are_lines(content);
    let bodies = lemma_code_lines(
        text::lines(content),
        syntax::syntax_for(set, extension),
        set,
    );
    assert(highlighted(
        highlight::text_page(content, extension, set, true).tokens,
        bodies,
        text::lines(content),
        syntax::syntax_for(set, extension),
        set,
    ));
}

/// A text that can be read and is shown without elements for its lines is shown
/// as it is, and each of its characters stands in the spans of the scopes that
/// the parser of the syntax for the extension finds there. No spans of other
/// scopes are opened. This holds where no line ends more scopes than hold.
pub proof fn law_bare_characters_wear_their_scopes(
    content: Seq<char>,
    extension: Seq<char>,
    set: SyntaxSet,
)
    requires
        readable(text::lines(content), syntax::syntax_for(set, extension), set),
        tidy(text::lines(content), syntax::syntax_for(set, extension), set),
    ensures
        ({
            let tokens = highlight::text_page(content, extension, set, false).tokens;
            &&& page_laws::balanced(tokens)
            &&& page_laws::shown_text(tokens) == content
            &&& page_laws::dress(tokens) == text_worn(
                text::lines(content),
                syntax::syntax_for(set, extension),
                set,
            )
            &&& page_laws::in_order_among(
                page_laws::opened(tokens),
                all_brought_in(
                    text::lines(content),
                    syntax::syntax_for(set, extension),
                    set,
                ),
            )
        }),
{
    let lines = text::lines(content);
    let syntax = syntax::syntax_for(set, extension);
    highlight::lemma_lines_are_lines(content);
    lemma_read(lines, syntax, set, false);
    lemma_orderly(lines, syntax, set, false);
    highlight::law_bare_text_is_shown(content, extension, set);
    lemma_bare_lines(lines, syntax, set);
    page_laws::law_closing_the_page(highlight::text_worked(content, extension, set, false).page);
}

}
