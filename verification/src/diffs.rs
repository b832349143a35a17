//! Differences between commits, as HTML.

use syntect::parsing::SyntaxSet;
use vstd::prelude::*;

use crate::highlight::{self, FormatError};
use crate::refs::ObjectId;
use crate::{filters, markup, page_laws, paths, scope_laws, syntax, text};

verus! {

/// A difference, ready to be shown.
#[derive(Debug)]
pub struct FormattedDiff {
    /// How much changed in each file, as HTML.
    pub diff_stats: String,
    /// The changes, as HTML.
    pub diff: String,
    /// The changes, as an email.
    pub diff_plain: Vec<u8>,
}

impl Default for FormattedDiff {
    fn default() -> (r: FormattedDiff)
        ensures
            r.diff_stats@.len() == 0,
            r.diff@.len() == 0,
            r.diff_plain@.len() == 0,
    {
        FormattedDiff {
            diff_stats: String::new(),
            diff: String::new(),
            diff_plain: Vec::new(),
        }
    }
}

// The changes

/// What a line of a difference says.
#[derive(Clone, Copy, Debug, PartialEq, Eq, Structural)]
pub enum LineOrigin {
    /// The line is in both files.
    Context,
    /// The line is in the new file only.
    Addition,
    /// The line is in the old file only.
    Deletion,
    /// The old file ends without a line feed, the new one with it.
    AddEofNl,
    /// The new file ends without a line feed, the old one with it.
    DeleteEofNl,
    /// The line tells which files are compared.
    FileHeader,
    /// Anything else.
    Other,
}

/// A line of a difference.
pub struct DiffLine {
    pub origin: LineOrigin,
    pub content: Vec<u8>,
    /// The path of the new file.
    pub path: Option<Vec<u8>>,
}

/// The class of a line.
pub open spec fn line_class(origin: LineOrigin) -> Option<Seq<char>> {
    match origin {
        LineOrigin::Addition => Some("add-line"@),
        LineOrigin::Deletion => Some("remove-line"@),
        LineOrigin::Context => Some("context"@),
        LineOrigin::AddEofNl => Some("remove-line"@),
        LineOrigin::DeleteEofNl => Some("add-line"@),
        LineOrigin::FileHeader => Some("file-header"@),
        LineOrigin::Other => None,
    }
}

/// Whether a line is one of the files that are compared.
pub open spec fn is_source(origin: LineOrigin) -> bool {
    origin is Addition || origin is Deletion || origin is Context
}

/// What tells the language of a line: that of the file it is in, or else that of
/// differences.
pub open spec fn line_hint(line: DiffLine) -> Seq<char> {
    if is_source(line.origin) {
        match line.path {
            Some(path) => paths::language_hint(path@),
            None => seq![],
        }
    } else {
        "patch"@
    }
}

/// A line, highlighted. What was painted before a failure is kept.
pub open spec fn line_body(line: DiffLine, set: SyntaxSet) -> Seq<char> {
    markup::markup(
        highlight::text_page(text::lossy(line.content@), line_hint(line), set, false).tokens,
    )
}

/// A line as HTML.
pub open spec fn line_html(line: DiffLine, set: SyntaxSet) -> Seq<char> {
    match line_class(line.origin) {
        Some(class) => "<span class=\"diff-"@ + class + "\">"@ + line_body(line, set) + "</span>"@,
        None => line_body(line, set),
    }
}

/// Lines as HTML.
pub open spec fn diff_html(lines: Seq<DiffLine>, set: SyntaxSet) -> Seq<char>
    decreases lines.len(),
{
    if lines.len() == 0 {
        seq![]
    } else {
        diff_html(lines.drop_last(), set) + line_html(lines.last(), set)
    }
}

/// Whether the parser names an offset in a line at which it cannot be cut.
pub open spec fn misread(line: DiffLine, set: SyntaxSet) -> bool {
    highlight::text_worked(text::lossy(line.content@), line_hint(line), set, false).failure == Some(
        FormatError::Offset,
    )
}

/// The class of a line.
pub fn find_line_class(origin: LineOrigin) -> (r: Option<&'static str>)
    ensures
        match line_class(origin) {
            Some(class) => r matches Some(found) && found@ == class,
            None => r is None,
        },
{
    match origin {
        LineOrigin::Addition => Some("add-line"),
        LineOrigin::Deletion => Some("remove-line"),
        LineOrigin::Context => Some("context"),
        LineOrigin::AddEofNl => Some("remove-line"),
        LineOrigin::DeleteEofNl => Some("add-line"),
        LineOrigin::FileHeader => Some("file-header"),
        LineOrigin::Other => None,
    }
}

/// What tells the language of a line.
pub fn find_line_hint(line: &DiffLine) -> (r: String)
    ensures
        r@ == line_hint(*line),
{
    match line.origin {
        LineOrigin::Addition | LineOrigin::Deletion | LineOrigin::Context => match &line.path {
            Some(path) => paths::find_language_hint(path.as_slice()),
            None => {
                let nothing = String::new();
                assert(nothing@ == Seq::<char>::empty());
                nothing
            },
        },
        _ => "patch".to_owned(),
    }
}

/// Appends a line as HTML. Says whether the parser kept to the line.
fn format_line(out: &mut String, line: &DiffLine, syntax_set: &SyntaxSet) -> (r: bool)
    requires
        syntax::usable(*syntax_set, line_hint(*line)),
    ensures
        final(out)@ == old(out)@ + line_html(*line, *syntax_set),
        r == !misread(*line, *syntax_set),
{
    let class = find_line_class(line.origin);
    let content = text::from_utf8_lossy(line.content.as_slice());
    let hint = find_line_hint(line);
    if let Some(class) = class {
        out.append("<span class=\"diff-");
        out.append(class);
        out.append("\">");
    }
    let result = highlight::format_file_inner(
        out,
        content.as_str(),
        hint.as_str(),
        syntax_set,
        false,
    );
    if class.is_some() {
        out.append("</span>");
    }
    assert(out@ == old(out)@ + line_html(*line, *syntax_set));
    match result {
        Err(FormatError::Offset) => false,
        _ => true,
    }
}

/// The lines of a difference as HTML. A line that cannot be parsed keeps what
/// was painted of it.
pub fn format_diff(lines: &Vec<DiffLine>, syntax_set: &SyntaxSet) -> (r: Result<
    String,
    FormatError,
>)
    requires
        forall|k: int|
            0 <= k < lines@.len() ==> syntax::usable(
                *syntax_set,
                line_hint(#[trigger] lines@[k]),
            ),
    ensures
        match r {
            Ok(html) => {
                &&& html@ == diff_html(lines@, *syntax_set)
                &&& forall|k: int|
                    0 <= k < lines@.len() ==> !misread(#[trigger] lines@[k], *syntax_set)
            },
            Err(failure) => failure == FormatError::Offset && exists|k: int|
                0 <= k < lines@.len() && misread(#[trigger] lines@[k], *syntax_set),
        },
{
    let mut out = String::new();
    assert(out@ == diff_html(lines@.take(0), *syntax_set));
    for k in 0..lines.len()
        invariant
            forall|j: int|
                0 <= j < lines@.len() ==> syntax::usable(
                    *syntax_set,
                    line_hint(#[trigger] lines@[j]),
                ),
            out@ == diff_html(lines@.take(k as int), *syntax_set),
            forall|j: int| 0 <= j < k ==> !misread(#[trigger] lines@[j], *syntax_set),
    {
        assert(lines@.take(k + 1).drop_last() == lines@.take(k as int));
        if !format_line(&mut out, &lines[k], syntax_set) {
            return Err(FormatError::Offset);
        }
    }
    assert(lines@.take(lines@.len() as int) == lines@);
    Ok(out)
}

// How much changed

/// So many spaces.
pub open spec fn spaces(n: nat) -> Seq<char> {
    Seq::new(n, |i: int| ' ')
}

/// A link to a file of a commit.
pub open spec fn file_link(file: Seq<char>, ref_: Seq<char>) -> Seq<char> {
    "<a href=\"../tree/"@ + file + "?id="@ + ref_ + "\">"@ + file + "</a>"@
}

/// How much changed in a file, with a link to the file. The spaces around the
/// name come after the link.
pub open spec fn stat_html(line: Seq<char>, ref_: Seq<char>) -> Seq<char> {
    if line.contains('|') {
        let at = text::first_index(line, '|');
        let left = line.take(at);
        let file = text::trimmed(left);
        file_link(file, ref_) + spaces(
            (text::byte_len(left) - text::byte_len(file)) as nat,
        ) + seq!['|'] + line.skip(at + 1)
    } else {
        line
    }
}

/// How much changed in each file, with links to the files.
pub open spec fn stats_html(stats: Seq<char>, ref_: Seq<char>) -> Seq<char> {
    text::joined(
        text::pieces(stats, '\n').map_values(|line: Seq<char>| stat_html(line, ref_)),
        seq!['\n'],
    )
}

/// What is left of a text without the white space at its ends has no more bytes
/// than the text.
proof fn lemma_trimmed_bytes(s: Seq<char>)
    ensures
        text::byte_len(text::trimmed(s)) <= text::byte_len(s),
{
    let rest = text::trimmed_start(s);
    text::lemma_trimmed_start_is_suffix(s);
    let cut = s.len() - rest.len();
    assert(s == s.take(cut) + rest);
    text::lemma_encode_concat(s.take(cut), rest);
    text::lemma_trimmed_end_is_prefix(rest);
    text::lemma_prefix_bytes(rest, text::trimmed(s).len() as int);
}

/// How much changed in a file, with a link to the file.
fn format_stat(line: &str, ref_: &str) -> (r: String)
    ensures
        r@ == stat_html(line@, ref_@),
{
    match text::split_once(line, '|') {
        None => line.to_owned(),
        Some((left, right)) => {
            let file = text::trim(left.as_str());
            proof {
                lemma_trimmed_bytes(left@);
            }
            let padding: usize = left.as_str().as_bytes().len() - file.as_bytes().len();
            let mut out = String::new();
            out.append("<a href=\"../tree/");
            out.append(file);
            out.append("?id=");
            out.append(ref_);
            out.append("\">");
            out.append(file);
            out.append("</a>");
            assert(out@ == file_link(file@, ref_@));
            let ghost link = out@;
            for k in 0..padding
                invariant
                    out@ == link + spaces(k as nat),
            {
                out.push(' ');
                assert(spaces((k + 1) as nat) == spaces(k as nat).push(' '));
            }
            out.push('|');
            out.append(right.as_str());
            assert(out@ == stat_html(line@, ref_@));
            out
        },
    }
}

/// How much changed in each file, as HTML: the text that git writes, with links
/// to the files as they are in the commit.
pub fn format_diff_stats(diff_stats: &str, ref_: &str) -> (r: String)
    ensures
        r@ == stats_html(diff_stats@, ref_@),
{
    let lines = text::split(diff_stats, '\n');
    let ghost all = text::pieces(diff_stats@, '\n');
    let mut done: Vec<String> = Vec::new();
    for k in 0..lines.len()
        invariant
            text::views(lines@) == all,
            text::views(done@) == all.take(k as int).map_values(
                |line: Seq<char>| stat_html(line, ref_@),
            ),
    {
        assert(lines@[k as int]@ == all[k as int]);
        let html = format_stat(lines[k].as_str(), ref_);
        let ghost before = done@;
        let ghost last = html@;
        done.push(html);
        assert(text::views(done@) == text::views(before).push(last));
        assert(all.take(k + 1).map_values(|line: Seq<char>| stat_html(line, ref_@)) == all.take(
            k as int,
        ).map_values(|line: Seq<char>| stat_html(line, ref_@)).push(last));
    }
    assert(all.take(all.len() as int) == all);
    proof {
        reveal_strlit("\n");
    }
    assert("\n"@ == seq!['\n']);
    text::join(&done, "\n")
}

// What is compared

/// The commit that another is compared to: the given one, or else the first
/// parent. There is none for a commit without parents.
pub fn diff_base(given: Option<ObjectId>, parents: &Vec<ObjectId>) -> (r: Option<ObjectId>)
    ensures
        match given {
            Some(id) => r == Some(id),
            None => if parents@.len() > 0 {
                r == Some(parents@[0])
            } else {
                r is None
            },
        },
{
    match given {
        Some(id) => Some(id),
        None => if parents.len() > 0 {
            Some(parents[0])
        } else {
            None
        },
    }
}

/// Who an email is from.
pub enum EmailAuthor {
    /// The author of the commit.
    OfCommit,
    /// A name and an address that stand for nobody.
    Nobody(String, String),
}

/// What stands at the top of an email with changes.
pub struct EmailHeader {
    pub id: ObjectId,
    pub summary: String,
    pub body: String,
    pub author: EmailAuthor,
}

/// A commit whose changes are sent.
pub struct SentCommit {
    pub id: ObjectId,
    pub parents: Vec<ObjectId>,
    pub summary: Option<String>,
    pub body: Option<String>,
}

/// The text that is there, or none.
pub open spec fn or_empty(s: Option<String>) -> Seq<char> {
    match s {
        Some(s) => s@,
        None => seq![],
    }
}

/// Whether an id is among others.
pub open spec fn among(id: ObjectId, ids: Seq<ObjectId>) -> bool {
    exists|k: int| 0 <= k < ids.len() && #[trigger] ids[k]@ == id@
}

fn find_among(id: &ObjectId, ids: &Vec<ObjectId>) -> (r: bool)
    ensures
        r == among(*id, ids@),
{
    for k in 0..ids.len()
        invariant
            forall|j: int| 0 <= j < k ==> #[trigger] ids@[j]@ != id@,
    {
        if ids[k].same(id) {
            return true;
        }
    }
    false
}

fn copy_or_empty(s: &Option<String>) -> (r: String)
    ensures
        r@ == or_empty(*s),
{
    match s {
        Some(s) => s.as_str().to_owned(),
        None => {
            let nothing = String::new();
            assert(nothing@ == Seq::<char>::empty());
            nothing
        },
    }
}

/// What stands at the top of the email. Compared to a parent the changes are the
/// commit, and the email is about it. Otherwise they are nobody's.
pub fn email_header(base: &ObjectId, commit: &SentCommit) -> (r: EmailHeader)
    ensures
        if among(*base, commit.parents@) {
            &&& r.id@ == commit.id@
            &&& r.summary@ == or_empty(commit.summary)
            &&& r.body@ == or_empty(commit.body)
            &&& r.author is OfCommit
        } else {
            &&& r.id@ == Seq::new(20, |i: int| 0u8)
            &&& r.summary@.len() == 0
            &&& r.body@.len() == 0
            &&& r.author matches EmailAuthor::Nobody(name, address) && name@ == "diff"@ && address@
                == "git@diff"@
        },
        r.author is OfCommit <==> exists|k: int|
            0 <= k < commit.parents@.len() && #[trigger] commit.parents@[k]@ == base@,
        r.author is OfCommit ==> {
            &&& commit.summary matches Some(summary) ==> r.summary@ == summary@
            &&& commit.summary is None ==> r.summary@.len() == 0
            &&& commit.body matches Some(body) ==> r.body@ == body@
            &&& commit.body is None ==> r.body@.len() == 0
        },
{
    if find_among(base, &commit.parents) {
        EmailHeader {
            id: commit.id,
            summary: copy_or_empty(&commit.summary),
            body: copy_or_empty(&commit.body),
            author: EmailAuthor::OfCommit,
        }
    } else {
        EmailHeader {
            id: ObjectId::zero(),
            summary: String::new(),
            body: String::new(),
            author: EmailAuthor::Nobody("diff".to_owned(), "git@diff".to_owned()),
        }
    }
}

/// Makes a difference ready to be shown, from what git writes about it.
pub fn formatted_diff(
    stats: Option<&str>,
    commit: &ObjectId,
    lines: &Vec<DiffLine>,
    email: &[u8],
    syntax_set: &SyntaxSet,
) -> (r: Result<FormattedDiff, FormatError>)
    requires
        forall|k: int|
            0 <= k < lines@.len() ==> syntax::usable(
                *syntax_set,
                line_hint(#[trigger] lines@[k]),
            ),
    ensures
        match r {
            Ok(made) => {
                &&& made.diff_stats@ == stats_html(
                    match stats {
                        Some(stats) => stats@,
                        None => seq![],
                    },
                    filters::hex_text(commit@),
                )
                &&& made.diff@ == diff_html(lines@, *syntax_set)
                &&& made.diff_plain@ == email@
                &&& forall|k: int|
                    0 <= k < lines@.len() ==> !misread(#[trigger] lines@[k], *syntax_set)
            },
            Err(failure) => failure == FormatError::Offset && exists|k: int|
                0 <= k < lines@.len() && misread(#[trigger] lines@[k], *syntax_set),
        },
{
    let stats: &str = match stats {
        Some(stats) => stats,
        None => "",
    };
    proof {
        reveal_strlit("");
    }
    assert(""@ == Seq::<char>::empty());
    let digits = commit.to_string();
    let diff_stats = format_diff_stats(stats, digits.as_str());
    let diff = match format_diff(lines, syntax_set) {
        Ok(html) => html,
        Err(failure) => return Err(failure),
    };
    let mut diff_plain: Vec<u8> = Vec::new();
    diff_plain.extend_from_slice(email);
    assert(diff_plain@ == email@);
    Ok(FormattedDiff { diff_stats, diff, diff_plain })
}

// The laws

/// A difference is shown line by line: two parts in a row are shown as the first
/// and then the second.
pub proof fn law_diff_by_parts(a: Seq<DiffLine>, b: Seq<DiffLine>, set: SyntaxSet)
    ensures
        diff_html(a + b, set) == diff_html(a, set) + diff_html(b, set),
    decreases b.len(),
{
    if b.len() == 0 {
        assert(a + b == a);
        assert(diff_html(a, set) + diff_html(b, set) == diff_html(a, set));
    } else {
        law_diff_by_parts(a, b.drop_last(), set);
        assert((a + b).drop_last() == a + b.drop_last());
        assert(diff_html(a + b, set) == diff_html(a, set) + diff_html(b, set));
    }
}

/// A line of a difference is shown as it is, in the element of its class if it
/// has one: inside, spans are opened and closed in order, none is left open, and
/// the text is that of the line. This holds of a line that could be parsed and
/// whose parts were found in order.
pub proof fn law_diff_line_is_shown(line: DiffLine, set: SyntaxSet)
    requires
        ({
            let content = text::lossy(line.content@);
            let hint = line_hint(line);
            &&& highlight::text_worked(content, hint, set, false).failure is None
            &&& highlight::orderly(
                text::lines(content),
                syntax::syntax_for(set, hint),
                set,
                false,
            )
        }),
    ensures
        exists|tokens: Seq<markup::Token>|
            {
                &&& line_html(line, set) == match line_class(line.origin) {
                    Some(class) => "<span class=\"diff-"@ + class + "\">"@ + markup::markup(tokens)
                        + "</span>"@,
                    None => markup::markup(tokens),
                }
                &&& #[trigger] page_laws::balanced(tokens)
                &&& page_laws::shown_text(tokens) == text::lossy(line.content@)
            },
{
    let content = text::lossy(line.content@);
    let tokens = highlight::text_page(content, line_hint(line), set, false).tokens;
    highlight::law_bare_text_is_shown(content, line_hint(line), set);
    assert(page_laws::balanced(tokens));
}

/// A line of a difference is shown as it is, in the element for what it says, and
/// highlighted: each of its characters stands in the spans of the scopes that a
/// parser finds there, and no spans of other scopes are opened. For a line of a
/// file that is the parser of the syntax for the file's name, for any other line
/// that of differences. This holds of a line that can be read and ends no more
/// scopes than hold.
pub proof fn law_diff_line_wears_its_scopes(
    line: DiffLine,
    opening: Seq<char>,
    closing: Seq<char>,
    hint: Seq<char>,
    set: SyntaxSet,
)
    requires
        match line.origin {
            LineOrigin::Addition => opening == "<span class=\"diff-add-line\">"@,
            LineOrigin::Deletion => opening == "<span class=\"diff-remove-line\">"@,
            LineOrigin::Context => opening == "<span class=\"diff-context\">"@,
            LineOrigin::AddEofNl => opening == "<span class=\"diff-remove-line\">"@,
            LineOrigin::DeleteEofNl => opening == "<span class=\"diff-add-line\">"@,
            LineOrigin::FileHeader => opening == "<span class=\"diff-file-header\">"@,
            LineOrigin::Other => opening == Seq::<char>::empty(),
        },
        closing == if line.origin is Other {
            Seq::<char>::empty()
        } else {
            "</span>"@
        },
        match line.origin {
            LineOrigin::Addition | LineOrigin::Deletion | LineOrigin::Context => match line.path {
                Some(path) => hint == paths::language_hint(path@),
                None => hint == Seq::<char>::empty(),
            },
            _ => hint == "patch"@,
        },
        scope_laws::readable(
            text::lines(text::lossy(line.content@)),
            syntax::syntax_for(set, hint),
            set,
        ),
        scope_laws::tidy(
            text::lines(text::lossy(line.content@)),
            syntax::syntax_for(set, hint),
            set,
        ),
    ensures
        exists|tokens: Seq<markup::Token>|
            {
                &&& line_html(line, set) == opening + markup::markup(tokens) + closing
                &&& #[trigger] page_laws::balanced(tokens)
                &&& page_laws::shown_text(tokens) == text::lossy(line.content@)
                &&& page_laws::dress(tokens) == scope_laws::text_worn(
                    text::lines(text::lossy(line.content@)),
                    syntax::syntax_for(set, hint),
                    set,
                )
                &&& page_laws::in_order_among(
                    page_laws::opened(tokens),
                    scope_laws::all_brought_in(
                        text::lines(text::lossy(line.content@)),
                        syntax::syntax_for(set, hint),
                        set,
                    ),
                )
            },
{
    let content = text::lossy(line.content@);
    let tokens = highlight::text_page(content, hint, set, false).tokens;
    scope_laws::law_bare_characters_wear_their_scopes(content, hint, set);
    reveal_strlit("<span class=\"diff-");
    reveal_strlit("add-line");
    reveal_strlit("remove-line");
    reveal_strlit("context");
    reveal_strlit("file-header");
    reveal_strlit("\">");
    reveal_strlit("<span class=\"diff-add-line\">");
    reveal_strlit("<span class=\"diff-remove-line\">");
    reveal_strlit("<span class=\"diff-context\">");
    reveal_strlit("<span class=\"diff-file-header\">");
    if let Some(class) = line_class(line.origin) {
        assert(opening == "<span class=\"diff-"@ + class + "\">"@);
    }
    assert(line_html(line, set) == opening + markup::markup(tokens) + closing);
    assert(page_laws::balanced(tokens));
}

/// A difference of one line is that line as HTML, and nothing else.
pub proof fn law_diff_of_one_line(line: DiffLine, set: SyntaxSet)
    ensures
        diff_html(seq![line], set) == line_html(line, set),
        diff_html(seq![], set).len() == 0,
{
    assert(seq![line].drop_last() == Seq::<DiffLine>::empty());
    assert(diff_html(seq![line].drop_last(), set) == Seq::<char>::empty());
    assert(diff_html(seq![line], set) == line_html(line, set));
}

/// Only a line with a change of scope within a character is refused. A line that
/// can be read is not, and neither is one that cannot be parsed.
pub proof fn law_only_misplaced_changes_are_refused(
    line: DiffLine,
    good: Seq<Seq<char>>,
    bad: Seq<char>,
    more: Seq<Seq<char>>,
    set: SyntaxSet,
)
    ensures
        ({
            let lines = text::lines(text::lossy(line.content@));
            let syntax = syntax::syntax_for(set, line_hint(line));
            let (state, scopes) = scope_laws::read(good, syntax, set);
            let ops = syntax::parsed(state, bad, set).0;
            &&& scope_laws::readable(lines, syntax, set) ==> !misread(line, set)
            &&& lines == good.push(bad) + more && scope_laws::readable(good, syntax, set)
                && !scope_laws::readable(good.push(bad), syntax, set) ==> {
                &&& ops is None ==> !misread(line, set)
                &&& ops is Some && scope_laws::carried(scopes, ops->0) ==> misread(line, set)
            }
        }),
{
    let content = text::lossy(line.content@);
    let lines = text::lines(content);
    let hint = line_hint(line);
    let syntax = syntax::syntax_for(set, hint);
    scope_laws::law_readable_text_is_highlighted(content, hint, set, false);
    if lines == good.push(bad) + more && scope_laws::readable(good, syntax, set)
        && !scope_laws::readable(good.push(bad), syntax, set) {
        scope_laws::law_first_bad_line_is_the_error(good, bad, more, syntax, set, false);
    }
}

/// In a line about a file, the name becomes a link to the file as it is in the
/// commit. The spaces around the name come behind the link, and what follows the
/// bar is kept.
pub proof fn law_stat_line_links_its_file(
    before: Seq<char>,
    file: Seq<char>,
    behind: Seq<char>,
    rest: Seq<char>,
    ref_: Seq<char>,
)
    requires
        forall|i: int| 0 <= i < before.len() ==> text::white_space(#[trigger] before[i]),
        forall|i: int| 0 <= i < behind.len() ==> text::white_space(#[trigger] behind[i]),
        file.len() > 0,
        !text::white_space(file[0]),
        !text::white_space(file.last()),
        !file.contains('|'),
    ensures
        stat_html(before + file + behind + "|"@ + rest, ref_) == "<a href=\"../tree/"@ + file
            + "?id="@ + ref_ + "\">"@ + file + "</a>"@ + Seq::new(
            vstd::utf8::encode_utf8(before).len() + vstd::utf8::encode_utf8(behind).len(),
            |i: int| ' ',
        ) + "|"@ + rest,
{
    let left = before + file + behind;
    let line = left + "|"@ + rest;
    reveal_strlit("|");
    text::law_only_the_ends_are_trimmed(before, file, behind);
    assert forall|i: int| 0 <= i < left.len() implies left[i] != '|' by {
        if i < before.len() {
            assert(text::white_space(before[i]));
        } else if i < before.len() + file.len() {
            assert(file.contains(file[i - before.len()]));
        } else {
            assert(text::white_space(behind[i - before.len() - file.len()]));
        }
    }
    assert(line[left.len() as int] == '|');
    text::lemma_first_index(line, '|');
    let at = text::first_index(line, '|');
    if at < left.len() {
        assert(left[at] == line[at]);
    }
    assert(at == left.len()) by {
        if at > left.len() {
            assert(line[left.len() as int] == '|');
        }
    }
    assert(line.take(at) == left);
    assert(line.skip(at + 1) == rest);
    text::lemma_encode_concat(before, file);
    text::lemma_encode_concat(before + file, behind);
    assert("|"@ == seq!['|']);
    assert(spaces((text::byte_len(left) - text::byte_len(file)) as nat) == Seq::new(
        vstd::utf8::encode_utf8(before).len() + vstd::utf8::encode_utf8(behind).len(),
        |i: int| ' ',
    ));
}

/// A line without a bar is kept as it is.
pub proof fn law_other_stat_lines_are_kept(line: Seq<char>, ref_: Seq<char>)
    requires
        !line.contains('|'),
    ensures
        stat_html(line, ref_) == line,
{
}

/// The bars stay in their column: a name and the spaces after it take as many
/// bytes as the name and the spaces around it did.
pub proof fn law_padding_keeps_the_width(left: Seq<char>)
    ensures
        ({
            let file = text::trimmed(left);
            let padding = spaces((text::byte_len(left) - text::byte_len(file)) as nat);
            text::byte_len(file + padding) == text::byte_len(left)
        }),
{
    let file = text::trimmed(left);
    lemma_trimmed_bytes(left);
    let padding = spaces((text::byte_len(left) - text::byte_len(file)) as nat);
    text::lemma_encode_concat(file, padding);
    assert(vstd::utf8::is_ascii_chars(padding));
    vstd::utf8::is_ascii_chars_encode_utf8(padding);
}

proof fn lemma_no_line_feed(a: Seq<char>, b: Seq<char>)
    requires
        !a.contains('\n'),
        !b.contains('\n'),
    ensures
        !(a + b).contains('\n'),
{
    if (a + b).contains('\n') {
        let i = (a + b).index_of('\n');
        if i < a.len() {
            assert(a[i] == '\n');
        } else {
            assert(b[i - a.len()] == '\n');
        }
    }
}

/// How much changed is told part by part: of two parts with a line feed between
/// them, the first is told as if it stood alone, and so is the second.
pub proof fn law_stats_by_parts(a: Seq<char>, b: Seq<char>, ref_: Seq<char>)
    ensures
        stats_html(a + seq!['\n'] + b, ref_) == stats_html(a, ref_) + seq!['\n'] + stats_html(
            b,
            ref_,
        ),
{
    let f = |line: Seq<char>| stat_html(line, ref_);
    let first = text::pieces(a, '\n');
    let second = text::pieces(b, '\n');
    text::law_pieces_by_parts(a, b, '\n');
    text::law_pieces_join_to_the_text(a, '\n');
    text::law_pieces_join_to_the_text(b, '\n');
    assert((first + second).map_values(f) == first.map_values(f) + second.map_values(f));
    text::law_joined_by_parts(first.map_values(f), second.map_values(f), seq!['\n']);
}

/// How much changed is told line by line: there are as many lines as before, and
/// each is made of the one that stood there.
pub proof fn law_stats_line_by_line(stats: Seq<char>, ref_: Seq<char>)
    requires
        !ref_.contains('\n'),
    ensures
        text::pieces(stats_html(stats, ref_), '\n') == text::pieces(stats, '\n').map_values(
            |line: Seq<char>| stat_html(line, ref_),
        ),
{
    let lines = text::pieces(stats, '\n');
    let made = lines.map_values(|line: Seq<char>| stat_html(line, ref_));
    text::law_pieces_join_to_the_text(stats, '\n');
    assert forall|k: int| 0 <= k < made.len() implies !(#[trigger] made[k]).contains('\n') by {
        let line = lines[k];
        assert(!line.contains('\n'));
        if line.contains('|') {
            lemma_stat_has_no_line_feed(line, ref_);
        }
    }
    text::law_joined_parts_are_the_pieces(made, '\n');
}

proof fn lemma_stat_has_no_line_feed(line: Seq<char>, ref_: Seq<char>)
    requires
        line.contains('|'),
        !line.contains('\n'),
        !ref_.contains('\n'),
    ensures
        !stat_html(line, ref_).contains('\n'),
{
    text::lemma_first_index(line, '|');
    let at = text::first_index(line, '|');
    let left = line.take(at);
    let file = text::trimmed(left);
    let rest = text::trimmed_start(left);
    text::lemma_trimmed_start_is_suffix(left);
    text::lemma_trimmed_end_is_prefix(rest);
    assert forall|i: int| 0 <= i < file.len() implies file[i] != '\n' by {
        assert(file[i] == rest[i]);
        assert(rest[i] == left[i + left.len() - rest.len()]);
        assert(left[i + left.len() - rest.len()] == line[i + left.len() - rest.len()]);
    }
    assert(!file.contains('\n'));
    let right = line.skip(at + 1);
    assert forall|i: int| 0 <= i < right.len() implies right[i] != '\n' by {
        assert(right[i] == line[i + at + 1]);
    }
    assert(!right.contains('\n'));
    let padding = spaces((text::byte_len(left) - text::byte_len(file)) as nat);
    reveal_strlit("<a href=\"../tree/");
    reveal_strlit("?id=");
    reveal_strlit("\">");
    reveal_strlit("</a>");
    let a = "<a href=\"../tree/"@;
    lemma_no_line_feed(a, file);
    lemma_no_line_feed(a + file, "?id="@);
    lemma_no_line_feed(a + file + "?id="@, ref_);
    lemma_no_line_feed(a + file + "?id="@ + ref_, "\">"@);
    lemma_no_line_feed(a + file + "?id="@ + ref_ + "\">"@, file);
    lemma_no_line_feed(a + file + "?id="@ + ref_ + "\">"@ + file, "</a>"@);
    let link = file_link(file, ref_);
    lemma_no_line_feed(link, padding);
    lemma_no_line_feed(link + padding, seq!['|']);
    lemma_no_line_feed(link + padding + seq!['|'], right);
}

}
