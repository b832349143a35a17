//! What a request for a commit or a difference asks for.

use vstd::prelude::*;
use vstd::utf8::*;

use crate::diffs::FormattedDiff;
use crate::refs::{self, Place, Source};
use crate::text;

verus! {

/// The query of a request.
pub struct UriQuery {
    /// The commit.
    pub id: Option<String>,
    /// The branch.
    pub branch: Option<String>,
    /// The commit to compare to.
    pub diff_base: Option<String>,
    /// Set to `1` for an answer in plain text.
    pub patch: Option<String>,
}

/// A request for a difference that names its commit by an empty text.
#[derive(Clone, Copy, Debug, PartialEq, Eq, Structural)]
pub struct EmptyId;

/// The text in an optional string.
pub open spec fn given(s: Option<String>) -> Option<Seq<char>> {
    match s {
        Some(s) => Some(s@),
        None => None,
    }
}

/// Whether plain text is asked for.
pub open spec fn wants_plain(query: UriQuery) -> bool {
    given(query.patch) == Some(seq!['1'])
}

/// Where the commit is that a request is about: where the id says, or else at
/// the branch, or else at the head.
pub open spec fn commit_place(query: UriQuery) -> Place {
    match given(query.id) {
        Some(id) => refs::named_place(id),
        None => refs::branch_place(given(query.branch)),
    }
}

/// Whether a request names its commit by an empty text.
pub open spec fn names_nothing(query: UriQuery) -> bool {
    given(query.id) == Some(Seq::<char>::empty())
}

/// What the location of a difference compares: the id, or else the branch.
pub open spec fn compared(query: UriQuery) -> Seq<char> {
    match given(query.id) {
        Some(id) => id,
        None => match given(query.branch) {
            Some(branch) => branch,
            None => seq![],
        },
    }
}

/// A parameter of a location, if it has a value.
pub open spec fn parameter(start: Seq<char>, value: Option<Seq<char>>) -> Seq<char> {
    match value {
        Some(value) => start + value,
        None => seq![],
    }
}

/// The location of the difference that a request for a commit is about.
pub open spec fn location(repository: Seq<char>, query: UriQuery) -> Seq<char> {
    "/"@ + repository + "/diff?id="@ + compared(query) + parameter("&id0="@, given(query.diff_base))
        + parameter("&patch="@, given(query.patch))
}

/// Whether plain text is asked for.
pub fn wants_patch(query: &UriQuery) -> (r: bool)
    ensures
        r == wants_plain(*query),
        r <==> (query.patch matches Some(patch) && patch@ == seq!['1']),
{
    match &query.patch {
        Some(patch) => {
            proof {
                reveal_strlit("1");
                assert("1"@ == seq!['1']);
                if encode_utf8(patch@) == encode_utf8("1"@) {
                    text::lemma_encode_injective(patch@, "1"@);
                }
            }
            text::same_bytes(patch.as_str().as_bytes(), "1".as_bytes())
        },
        None => false,
    }
}

fn optional_str(s: &Option<String>) -> (r: Option<&str>)
    ensures
        refs::text_of(r) == given(*s),
{
    match s {
        Some(s) => Some(s.as_str()),
        None => None,
    }
}

/// Where the commit is that a request is about.
pub fn commit_source(query: &UriQuery) -> (r: Source)
    ensures
        r@ == commit_place(*query),
        query.id matches Some(id) ==> if refs::is_id(id@) {
            r matches Source::Id(found) && found@ == refs::id_bytes(id@)
        } else {
            r matches Source::Name(name) && name@ == id@
        },
        query.id is None ==> match query.branch {
            Some(branch) => r matches Source::Name(name) && name@ == branch@,
            None => r is Head,
        },
{
    match &query.id {
        Some(id) => refs::id_or_name(id.as_str()),
        None => refs::branch_or_head(optional_str(&query.branch)),
    }
}

/// Where the commit is whose difference is asked for. An empty id, to which a
/// request that names nothing is sent on, is refused.
pub fn diff_source(query: &UriQuery) -> (r: Result<Source, EmptyId>)
    ensures
        match r {
            Ok(source) => !names_nothing(*query) && source@ == commit_place(*query),
            Err(_) => names_nothing(*query),
        },
        r is Err <==> (query.id matches Some(id) && id@.len() == 0),
        r matches Ok(source) ==> match query.id {
            Some(id) => if refs::is_id(id@) {
                source matches Source::Id(found) && found@ == refs::id_bytes(id@)
            } else {
                source matches Source::Name(name) && name@ == id@
            },
            None => match query.branch {
                Some(branch) => source matches Source::Name(name) && name@ == branch@,
                None => source is Head,
            },
        },
{
    if let Some(id) = &query.id {
        if id.as_str().unicode_len() == 0 {
            assert(id@ == Seq::<char>::empty());
            return Err(EmptyId);
        }
    }
    Ok(commit_source(query))
}

/// Where the commit is that a request compares to, if it names one.
pub fn base_source(query: &UriQuery) -> (r: Option<Source>)
    ensures
        match given(query.diff_base) {
            Some(base) => r matches Some(source) && source@ == refs::named_place(base),
            None => r is None,
        },
        query.diff_base is Some <==> r is Some,
        query.diff_base matches Some(base) ==> if refs::is_id(base@) {
            r matches Some(Source::Id(found)) && found@ == refs::id_bytes(base@)
        } else {
            r matches Some(Source::Name(name)) && name@ == base@
        },
{
    match &query.diff_base {
        Some(base) => Some(refs::id_or_name(base.as_str())),
        None => None,
    }
}

/// Where a request for a commit is sent on to: to the difference, if it names a
/// commit to compare to or asks for plain text.
pub fn redirect(repository: &str, query: &UriQuery) -> (r: Option<String>)
    ensures
        if query.diff_base is Some || wants_plain(*query) {
            r matches Some(to) && to@ == location(repository@, *query)
        } else {
            r is None
        },
        r is Some <==> query.diff_base is Some || (query.patch matches Some(patch) && patch@
            == seq!['1']),
        r matches Some(to) ==> to@ == "/"@ + repository@ + "/diff?id="@ + match (
            query.id,
            query.branch,
        ) {
            (Some(id), _) => id@,
            (None, Some(branch)) => branch@,
            (None, None) => seq![],
        } + match query.diff_base {
            Some(base) => "&id0="@ + base@,
            None => seq![],
        } + match query.patch {
            Some(patch) => "&patch="@ + patch@,
            None => seq![],
        },
{
    if query.diff_base.is_none() && !wants_patch(query) {
        return None;
    }
    let mut to = String::new();
    to.append("/");
    to.append(repository);
    to.append("/diff?id=");
    match (&query.id, &query.branch) {
        (Some(id), _) => to.append(id.as_str()),
        (None, Some(branch)) => to.append(branch.as_str()),
        (None, None) => {},
    }
    assert(to@ == "/"@ + repository@ + "/diff?id="@ + compared(*query));
    let ghost before = to@;
    if let Some(base) = &query.diff_base {
        to.append("&id0=");
        to.append(base.as_str());
    }
    assert(to@ == before + parameter("&id0="@, given(query.diff_base)));
    let ghost before = to@;
    if let Some(patch) = &query.patch {
        to.append("&patch=");
        to.append(patch.as_str());
    }
    assert(to@ == before + parameter("&patch="@, given(query.patch)));
    Some(to)
}

/// The answer to a request for a difference.
pub enum DiffResponse {
    /// The difference as an email, under a media type.
    Plain(&'static str, Vec<u8>),
    /// A page with the difference.
    Page(FormattedDiff),
}

/// Answers a request for a difference.
pub fn respond(query: &UriQuery, diff: FormattedDiff) -> (r: DiffResponse)
    ensures
        if wants_plain(*query) {
            r matches DiffResponse::Plain(media_type, bytes) && media_type@ == "text/plain"@
                && bytes@ == diff.diff_plain@
        } else {
            r == DiffResponse::Page(diff)
        },
        r is Plain <==> (query.patch matches Some(patch) && patch@ == seq!['1']),
{
    if wants_patch(query) {
        DiffResponse::Plain("text/plain", diff.diff_plain)
    } else {
        DiffResponse::Page(diff)
    }
}

/// A request that names its commit by an id keeps it when it is sent on, with or
/// without plain text: the location names the id, and what follows it is another
/// parameter or nothing.
pub proof fn law_id_is_kept(repository: Seq<char>, query: UriQuery)
    requires
        query.id is Some,
    ensures
        ({
            let to = location(repository, query);
            let start = "/"@ + repository + "/diff?id="@ + query.id->0@;
            &&& to.len() >= start.len()
            &&& to.take(start.len() as int) == start
            &&& to.len() > start.len() ==> to[start.len() as int] == '&'
        }),
{
    reveal_strlit("&id0=");
    reveal_strlit("&patch=");
    let to = location(repository, query);
    let start = "/"@ + repository + "/diff?id="@ + query.id->0@;
    let base = parameter("&id0="@, given(query.diff_base));
    let patch = parameter("&patch="@, given(query.patch));
    assert(to == start + base + patch);
    assert(to.take(start.len() as int) == start);
    assert(to.skip(start.len() as int) == base + patch);
    if to.len() > start.len() {
        assert(to[start.len() as int] == (base + patch)[0]);
    }
}

/// The parameters of a location: what stands behind the first question mark,
/// taken apart at the ampersands.
pub open spec fn parameters(to: Seq<char>) -> Seq<Seq<char>> {
    text::pieces(to.skip(text::first_index(to, '?') + 1), '&')
}

/// A request that is sent on says the same where it arrives: read back, the
/// parameters of the location are the commit, by its id or else by its branch,
/// then what to compare to and whether plain text is wanted, as far as the
/// request said so. This holds where the name of the repository holds no question
/// mark and no value an ampersand.
pub proof fn law_location_is_read_back(repository: Seq<char>, query: UriQuery, named: Seq<char>)
    requires
        !repository.contains('?'),
        match (query.id, query.branch) {
            (Some(id), _) => named == id@,
            (None, Some(branch)) => named == branch@,
            (None, None) => named.len() == 0,
        },
        !named.contains('&'),
        query.diff_base matches Some(base) ==> !base@.contains('&'),
        query.patch matches Some(patch) ==> !patch@.contains('&'),
    ensures
        parameters(location(repository, query)) == seq!["id="@ + named] + match query.diff_base {
            Some(base) => seq!["id0="@ + base@],
            None => seq![],
        } + match query.patch {
            Some(patch) => seq!["patch="@ + patch@],
            None => seq![],
        },
{
    reveal_strlit("/");
    reveal_strlit("/diff?id=");
    reveal_strlit("/diff");
    reveal_strlit("&id0=");
    reveal_strlit("&patch=");
    reveal_strlit("id=");
    reveal_strlit("id0=");
    reveal_strlit("patch=");
    let to = location(repository, query);
    let base = parameter("&id0="@, given(query.diff_base));
    let patch = parameter("&patch="@, given(query.patch));
    let head = "/"@ + repository + "/diff"@;
    let tail = "id="@ + named + base + patch;
    assert(named == compared(query));
    assert(to == head + seq!['?'] + tail);
    assert forall|i: int| 0 <= i < head.len() implies head[i] != '?' by {
        if 1 <= i < 1 + repository.len() {
            assert(repository.contains(repository[i - 1]));
        }
    }
    text::lemma_first_index(to, '?');
    let at = text::first_index(to, '?');
    assert(to[head.len() as int] == '?');
    if at < head.len() {
        assert(to[at] == head[at]);
    }
    assert(at == head.len());
    assert(to.skip(at + 1) == tail);
    let first = seq!["id="@ + named];
    let second = match query.diff_base {
        Some(base) => seq!["id0="@ + base@],
        None => seq![],
    };
    let third = match query.patch {
        Some(patch) => seq!["patch="@ + patch@],
        None => seq![],
    };
    let parts = first + second + third;
    assert(!("id="@ + named).contains('&'));
    if let Some(base) = query.diff_base {
        assert(!("id0="@ + base@).contains('&'));
    }
    if let Some(patch) = query.patch {
        assert(!("patch="@ + patch@).contains('&'));
    }
    assert forall|k: int| 0 <= k < parts.len() implies !(#[trigger] parts[k]).contains('&') by {
        if k >= 1 {
            if k - 1 < second.len() {
                assert(parts[k] == second[k - 1]);
            } else {
                assert(parts[k] == third[k - 1 - second.len()]);
            }
        }
    }
    let and = seq!['&'];
    assert(text::joined(first, and) == "id="@ + named);
    assert(text::joined(first + second, and) == "id="@ + named + base) by {
        if second.len() > 0 {
            assert((first + second).drop_last() == first);
            assert((first + second).last() == second[0]);
            assert(base == and + second[0]);
        } else {
            assert(first + second == first);
        }
    }
    assert(text::joined(parts, and) == tail) by {
        if third.len() > 0 {
            assert(parts.drop_last() == first + second);
            assert(parts.last() == third[0]);
            assert(patch == and + third[0]);
        } else {
            assert(parts == first + second);
        }
    }
    text::law_joined_parts_are_the_pieces(parts, '&');
}

/// The location that a request for plain text is sent on to asks for plain text
/// too.
pub proof fn law_plain_text_is_kept(repository: Seq<char>, query: UriQuery)
    requires
        wants_plain(query),
    ensures
        ({
            let to = location(repository, query);
            let end = "&patch=1"@;
            &&& to.len() >= end.len()
            &&& to.skip(to.len() - end.len()) == end
        }),
{
    reveal_strlit("&patch=1");
    reveal_strlit("&patch=");
    let end = parameter("&patch="@, given(query.patch));
    assert(end == "&patch=1"@);
    let to = location(repository, query);
    assert(to.skip(to.len() - end.len()) == end);
}

/// A request that names neither a commit nor a branch and is sent on is refused
/// where it arrives: there it names its commit by the text that the location
/// compares, which is empty.
pub proof fn law_nothing_named_is_refused(query: UriQuery, arrived: UriQuery)
    requires
        query.id is None,
        query.branch is None,
        given(arrived.id) == Some(compared(query)),
    ensures
        names_nothing(arrived),
{
}

}
