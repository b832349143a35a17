//! Paths in a repository. Their parts are separated by `/`.

use vstd::prelude::*;

use crate::text;

verus! {

/// The byte that separates the parts of a path.
pub const SLASH: u8 = 0x2f;

/// The byte that separates a name from its extension.
pub const DOT: u8 = 0x2e;

/// A path with a name put at its end. A name that starts at the root takes the
/// place of the path.
pub open spec fn joined<A>(base: Seq<A>, name: Seq<A>, slash: A) -> Seq<A> {
    if name.len() > 0 && name[0] == slash {
        name
    } else if base.len() == 0 || base.last() == slash {
        base + name
    } else {
        base.push(slash) + name
    }
}

/// The position after the last occurrence of a byte, or the start.
pub open spec fn after_last(s: Seq<u8>, byte: u8) -> int
    decreases s.len(),
{
    if s.len() == 0 {
        0
    } else if s.last() == byte {
        s.len() as int
    } else {
        after_last(s.drop_last(), byte)
    }
}

/// The name at the end of a path. Separators at the end and parts that are a
/// single dot do not count; a part that leads upwards is no name.
pub open spec fn file_name(path: Seq<u8>) -> Option<Seq<u8>>
    decreases path.len(),
{
    proof {
        lemma_after_last(path, SLASH);
    }
    let start = after_last(path, SLASH);
    let part = path.skip(start);
    if part.len() == 0 || part == seq![DOT] {
        if start == 0 {
            None
        } else {
            file_name(path.take(start - 1))
        }
    } else if part == seq![DOT, DOT] {
        None
    } else {
        Some(part)
    }
}

/// What follows the last dot of a name, unless the name has no dot but at its
/// start.
pub open spec fn extension(name: Seq<u8>) -> Option<Seq<u8>> {
    let start = after_last(name, DOT);
    if start <= 1 {
        None
    } else {
        Some(name.skip(start))
    }
}

/// What tells the language of a file: the extension of its name, or the whole
/// name if it has none.
pub open spec fn language_hint(path: Seq<u8>) -> Seq<char> {
    match file_name(path) {
        None => seq![],
        Some(name) => match extension(name) {
            Some(extension) => text::lossy(extension),
            None => text::lossy(name),
        },
    }
}

/// The position after the last occurrence lies in the sequence, just behind an
/// occurrence, with none further on.
pub proof fn lemma_after_last(s: Seq<u8>, byte: u8)
    ensures
        0 <= after_last(s, byte) <= s.len(),
        after_last(s, byte) > 0 ==> s[after_last(s, byte) - 1] == byte,
        forall|i: int| after_last(s, byte) <= i < s.len() ==> s[i] != byte,
    decreases s.len(),
{
    if s.len() > 0 && s.last() != byte {
        let before = s.drop_last();
        lemma_after_last(before, byte);
        assert forall|i: int| after_last(s, byte) <= i < s.len() implies s[i] != byte by {
            if i < before.len() {
                assert(before[i] != byte);
            }
        }
    }
}

/// Puts a name at the end of a path.
pub fn join(base: &[u8], name: &[u8]) -> (r: Vec<u8>)
    ensures
        r@ == joined(base@, name@, SLASH),
{
    let mut r: Vec<u8> = Vec::new();
    if !(name.len() > 0 && name[0] == SLASH) {
        r.extend_from_slice(base);
        if base.len() > 0 && base[base.len() - 1] != SLASH {
            r.push(SLASH);
        }
    }
    r.extend_from_slice(name);
    assert(r@ == joined(base@, name@, SLASH));
    r
}

/// Puts a name at the end of a path that is a text.
pub fn join_text(base: &str, name: &str) -> (r: String)
    ensures
        r@ == joined(base@, name@, '/'),
{
    let mut rooted = false;
    if name.unicode_len() > 0 {
        rooted = name.get_char(0) == '/';
    }
    if rooted {
        return name.to_owned();
    }
    let mut r = base.to_owned();
    let len: usize = base.unicode_len();
    if len > 0 && base.get_char(len - 1) != '/' {
        r.push('/');
    }
    r.append(name);
    assert(r@ == joined(base@, name@, '/'));
    r
}

/// The position after the last occurrence of a byte among the first `len`.
fn find_after_last(s: &[u8], len: usize, byte: u8) -> (at: usize)
    requires
        len <= s@.len(),
    ensures
        at == after_last(s@.take(len as int), byte),
        at <= len,
{
    let mut n: usize = len;
    while n > 0
        invariant
            n <= len <= s@.len(),
            after_last(s@.take(len as int), byte) == after_last(s@.take(n as int), byte),
        decreases n,
    {
        assert(s@.take(n as int).last() == s@[n - 1]);
        if s[n - 1] == byte {
            return n;
        }
        assert(s@.take(n as int).drop_last() == s@.take(n - 1));
        n = n - 1;
    }
    0
}

/// Where the name at the end of a path lies.
fn find_name(path: &[u8]) -> (r: Option<(usize, usize)>)
    ensures
        match r {
            Some((start, end)) => {
                &&& start <= end <= path@.len()
                &&& file_name(path@) == Some(path@.subrange(start as int, end as int))
            },
            None => file_name(path@) is None,
        },
{
    let mut end: usize = path.len();
    assert(path@.take(end as int) == path@);
    loop
        invariant
            end <= path@.len(),
            file_name(path@) == file_name(path@.take(end as int)),
        decreases end,
    {
        let start: usize = find_after_last(path, end, SLASH);
        let ghost rest = path@.take(end as int);
        let ghost part = rest.skip(start as int);
        assert(part == path@.subrange(start as int, end as int));
        let none = end == start || (end - start == 1 && path[start] == DOT);
        proof {
            if end - start == 1 {
                assert(part[0] == path@[start as int]);
                if part[0] == DOT {
                    assert(part == seq![DOT]);
                }
            }
            assert(none == (part.len() == 0 || part == seq![DOT]));
        }
        if none {
            if start == 0 {
                return None;
            }
            assert(rest.take(start - 1) == path@.take(start - 1));
            end = start - 1;
        } else {
            let up = end - start == 2 && path[start] == DOT && path[start + 1] == DOT;
            proof {
                if end - start == 2 {
                    assert(part[0] == path@[start as int] && part[1] == path@[start + 1]);
                    if part[0] == DOT && part[1] == DOT {
                        assert(part == seq![DOT, DOT]);
                    }
                }
                assert(up == (part == seq![DOT, DOT]));
            }
            if up {
                return None;
            }
            return Some((start, end));
        }
    }
}

/// Whether the name at the end of a path has an extension.
pub fn has_extension(path: &[u8], wanted: &[u8]) -> (r: bool)
    ensures
        r == match file_name(path@) {
            Some(name) => extension(name) == Some(wanted@),
            None => false,
        },
{
    match find_name(path) {
        None => false,
        Some((start, end)) => {
            let name = vstd::slice::slice_subrange(path, start, end);
            let at: usize = find_after_last(name, name.len(), DOT);
            assert(name@.take(name@.len() as int) == name@);
            if at <= 1 {
                false
            } else {
                let tail = vstd::slice::slice_subrange(name, at, name.len());
                assert(tail@ == name@.skip(at as int));
                text::same_bytes(tail, wanted)
            }
        },
    }
}

/// What tells the language of a file.
pub fn find_language_hint(path: &[u8]) -> (r: String)
    ensures
        r@ == language_hint(path@),
{
    match find_name(path) {
        None => String::new(),
        Some((start, end)) => {
            let name = vstd::slice::slice_subrange(path, start, end);
            let at: usize = find_after_last(name, name.len(), DOT);
            assert(name@.take(name@.len() as int) == name@);
            if at <= 1 {
                text::from_utf8_lossy(name)
            } else {
                let tail = vstd::slice::slice_subrange(name, at, name.len());
                assert(tail@ == name@.skip(at as int));
                text::from_utf8_lossy(tail)
            }
        },
    }
}

/// A file with a plain name keeps it: what a name was joined to has no part in
/// the language of the file.
pub proof fn law_hint_is_of_the_last_name(base: Seq<u8>, name: Seq<u8>)
    requires
        name.len() > 0,
        !name.contains(SLASH),
        name != seq![DOT],
        name != seq![DOT, DOT],
    ensures
        file_name(base + seq![SLASH] + name) == Some(name),
        language_hint(base + seq![SLASH] + name) == language_hint(name),
{
    let path = base + seq![SLASH] + name;
    let start = base.len() + 1;
    lemma_after_last(path, SLASH);
    assert(path[start - 1] == SLASH);
    assert forall|i: int| start <= i < path.len() implies path[i] != SLASH by {
        assert(path[i] == name[i - start]);
    }
    assert(after_last(path, SLASH) == start);
    assert(path.skip(start as int) == name);
    lemma_after_last(name, SLASH);
    assert(after_last(name, SLASH) == 0) by {
        if after_last(name, SLASH) > 0 {
            assert(name.contains(name[after_last(name, SLASH) - 1]));
        }
    }
    assert(name.skip(0) == name);
}

/// A path of one part is its own name, unless the part is no name.
pub proof fn lemma_name_of_one_part(path: Seq<u8>)
    requires
        !path.contains(0x2f),
    ensures
        file_name(path) == if path.len() == 0 || path == seq![0x2eu8] || path == seq![
            0x2eu8,
            0x2eu8,
        ] {
            None
        } else {
            Some(path)
        },
{
    lemma_after_last(path, SLASH);
    if after_last(path, SLASH) > 0 {
        assert(path.contains(path[after_last(path, SLASH) - 1]));
    }
    assert(path.skip(0) == path);
}

proof fn lemma_plain_name(name: Seq<u8>)
    requires
        name.len() > 0,
        !name.contains(0x2f),
        name != seq![0x2eu8],
        name != seq![0x2eu8, 0x2eu8],
    ensures
        file_name(name) == Some(name),
{
    lemma_after_last(name, SLASH);
    if after_last(name, SLASH) > 0 {
        assert(name.contains(name[after_last(name, SLASH) - 1]));
    }
    assert(name.skip(0) == name);
}

/// What follows the last dot of a name tells the language, whatever the directory
/// is, if something stands before the dot.
pub proof fn law_extension_tells_the_language(base: Seq<u8>, stem: Seq<u8>, ending: Seq<u8>)
    requires
        stem.len() > 0,
        ending.len() > 0 || stem != seq![0x2eu8],
        !stem.contains(0x2f),
        !ending.contains(0x2f),
        !ending.contains(0x2e),
    ensures
        language_hint(stem + seq![0x2eu8] + ending) == text::lossy(ending),
        language_hint(base + seq![0x2fu8] + (stem + seq![0x2eu8] + ending)) == text::lossy(ending),
{
    let name = stem + seq![0x2eu8] + ending;
    assert forall|i: int| 0 <= i < name.len() implies name[i] != 0x2f by {
        if i < stem.len() {
            assert(stem.contains(stem[i]));
        } else if i > stem.len() {
            assert(ending.contains(ending[i - stem.len() - 1]));
        }
    }
    let up = seq![0x2eu8, 0x2eu8];
    assert(name != up) by {
        if name == up {
            assert(name.len() == stem.len() + 1 + ending.len());
            assert(up.len() == 2);
            assert(stem[0] == name[0]);
            assert(up[0] == 0x2e);
            assert(stem =~= seq![0x2eu8]);
        }
    }
    lemma_plain_name(name);
    law_hint_is_of_the_last_name(base, name);
    lemma_after_last(name, DOT);
    let at = after_last(name, DOT);
    assert(name[stem.len() as int] == 0x2e);
    assert(at == stem.len() + 1) by {
        if at > stem.len() + 1 {
            assert(name[at - 1] == ending[at - stem.len() - 2]);
            assert(ending.contains(ending[at - stem.len() - 2]));
        }
    }
    assert(name.skip(at) == ending);
}

/// A name without a dot, but perhaps one at its start, tells the language itself,
/// whatever the directory is.
pub proof fn law_bare_name_tells_the_language(base: Seq<u8>, name: Seq<u8>)
    requires
        name.len() > 0,
        name != seq![0x2eu8],
        !name.contains(0x2f),
        forall|i: int| 1 <= i < name.len() ==> name[i] != 0x2e,
    ensures
        language_hint(name) == text::lossy(name),
        language_hint(base + seq![0x2fu8] + name) == text::lossy(name),
{
    if name == seq![0x2eu8, 0x2eu8] {
        assert(name[1] == 0x2e);
    }
    lemma_plain_name(name);
    law_hint_is_of_the_last_name(base, name);
    lemma_after_last(name, DOT);
    let at = after_last(name, DOT);
    if at > 1 {
        assert(name[at - 1] == 0x2e);
    }
}

/// A separator at the end of a path, and a part that is a single dot, do not
/// count. A path that leads upwards at its end has no name there, and tells no
/// language.
pub proof fn law_ends_that_are_no_names(path: Seq<u8>)
    ensures
        file_name(path + seq![0x2fu8]) == file_name(path),
        file_name(path + seq![0x2fu8, 0x2eu8]) == file_name(path),
        file_name(path + seq![0x2fu8, 0x2eu8, 0x2eu8]) is None,
        language_hint(path + seq![0x2fu8, 0x2eu8, 0x2eu8]).len() == 0,
{
    let n = path.len() as int;
    let ends = seq![seq![0x2fu8], seq![0x2fu8, 0x2eu8], seq![0x2fu8, 0x2eu8, 0x2eu8]];
    assert forall|k: int| 0 <= k < 3 implies after_last(path + #[trigger] ends[k], SLASH) == n
        + 1 by {
        let s = path + ends[k];
        lemma_after_last(s, SLASH);
        assert(s[n] == SLASH);
        assert(forall|i: int| n < i < s.len() ==> s[i] == 0x2e);
    }
    let (a, b, c) = (path + ends[0], path + ends[1], path + ends[2]);
    assert(a.take(n) == path && b.take(n) == path);
    assert(a.skip(n + 1) == Seq::<u8>::empty());
    assert(b.skip(n + 1) == seq![DOT]);
    assert(c.skip(n + 1) == seq![DOT, DOT]);
    assert(c.skip(n + 1) != seq![DOT]) by {
        assert(c.skip(n + 1).len() == 2);
    }
}

/// A path with a name put at its end begins with the path and ends with the name,
/// with one separator between them. Only a name that starts at the root takes the
/// place of the path.
pub proof fn law_joined_path_holds_both<A>(base: Seq<A>, name: Seq<A>, slash: A)
    ensures
        name.len() > 0 && name[0] == slash ==> joined(base, name, slash) == name,
        !(name.len() > 0 && name[0] == slash) ==> {
            let path = joined(base, name, slash);
            &&& path.len() >= base.len() + name.len()
            &&& path.take(base.len() as int) == base
            &&& path.skip(path.len() - name.len()) == name
            &&& base.len() == 0 ==> path == name
            &&& base.len() > 0 ==> path[path.len() - name.len() - 1] == slash
            &&& base.len() > 0 && base.last() == slash ==> path.len() == base.len() + name.len()
            &&& base.len() > 0 && base.last() != slash ==> path.len() == base.len() + 1
                + name.len()
        },
{
    let path = joined(base, name, slash);
    if !(name.len() > 0 && name[0] == slash) {
        assert(path.take(base.len() as int) == base);
        assert(path.skip(path.len() - name.len()) == name);
        assert(base.len() == 0 ==> path == name);
    }
}

}
